//! An optimistic scheduler for balance withdraw reservations.
//!
//! A transaction that contains withdraw reservations is first enqueued here. Only after its
//! reservations are secured does it proceed towards execution.
//!
//! A conservative way to process such a transaction would be to wait until the accumulator version
//! that it depends on is fully settled. At that point it is known for sure what its accounts hold.
//! That would limit the throughput, so the scheduler tracks the guaranteed minimum balance of each
//! account: a recent settled balance, less all withdraws that have been reserved since. A
//! transaction whose reservations are all covered by these minimum balances need not wait.
//!
//! There are two entry points:
//! 1. When transactions are enqueued, their withdraw reservations are queued with their accounts,
//!    and each of these accounts is asked to reserve what it can.
//! 2. When a settlement has been executed, the guaranteed minimum balances of the accounts are
//!    updated, and each account is asked again.
use crate::account_laws::settled_balance;
use crate::account_state::{lemma_cut_back_undoes, waits_for, AccountState, AccountView};
use crate::balance_read::AccountBalanceRead;
use crate::books::law_enqueuing_keeps_balances;
use crate::dash_maps::{
    account_states, new_account_states, new_pending_versions, pending_versions, put_account_state,
    put_pending_version, take_account_state, take_pending_version,
};
use crate::listing::{accounts_of, extend, keys_of, lemma_take_next, union};
use crate::model::{
    accounts_touched, add_registrations, balances_at, digests, first_of, ids_for,
    lemma_first_of_distinct, lemma_ids_for, lemma_no_ids_for, lemma_register_keeps_wf,
    lemma_release_keeps, lemma_release_next, lemma_same_queues, lemma_serve_absent,
    lemma_serve_keeps_queues, lemma_serve_leaves_others, lemma_serve_more, lemma_serve_none,
    lemma_serve_one, lemma_serve_restores_wf, lemma_serve_union, lemma_settle_balances_keeps_wf,
    lemma_touched_push, lemma_wf_keeps, lemma_with_queue, release, released, SchedulerView,
};
use crate::pending::PendingAccumulatorVersion;
use crate::registration::{RegistrationTable, RegistrationView, TxWithdrawRegistration};
use crate::types::{
    withdraws_view, BalanceSettlement, ObjectID, RegistrationId, ScheduleReceiver, ScheduleResult,
    SequenceNumber, SettlementView, TransactionDigest, TxBalanceWithdraw, WithdrawView,
};
use dashmap::DashMap;
use std::collections::{BTreeMap, BTreeSet};
use vstd::prelude::*;

verus! {

/// The scheduler. Whoever enqueues a transaction is told at once whether it is ready, or gets the
/// registration under which a later settlement makes it so.
pub struct WithdrawScheduler {
    /// All accounts that we need to track the status.
    /// These are accounts that have scheduled withdraw reservations,
    /// and have not yet been settled.
    account_states: DashMap<ObjectID, AccountState>,
    /// The transactions that stand in the queues of the accounts.
    registrations: RegistrationTable,
    /// The last settled accumulator version.
    last_known_settled_version: SequenceNumber,
    /// For each accumulator version, the set of transactions and the set of account IDs
    /// that have scheduled withdraw reservations at that accumulator version,
    /// but have not yet been settled.
    pending_accumulator_versions: DashMap<SequenceNumber, PendingAccumulatorVersion>,
    /// The settlements that have arrived ahead of their turn, by the version that they settle.
    pending_settlements: BTreeMap<SequenceNumber, BalanceSettlement>,
    /// The version that the settlement whose turn it is settles.
    expected_version: SequenceNumber,
}

impl View for WithdrawScheduler {
    type V = SchedulerView;

    closed spec fn view(&self) -> SchedulerView {
        SchedulerView {
            accounts: account_states(self.account_states).map_values(|state: AccountState| state@),
            registrations: self.registrations@,
            next_registration: self.registrations.next_id(),
            pending: pending_versions(self.pending_accumulator_versions).map_values(
                |pending: PendingAccumulatorVersion| pending@,
            ),
            last_known_settled_version: self.last_known_settled_version,
            settlements: self.pending_settlements@.map_values(
                |settlement: BalanceSettlement| settlement@,
            ),
            expected_version: self.expected_version,
        }
    }
}

impl WithdrawScheduler {
    /// The guaranteed minimum balance of an account is a number of its type.
    proof fn lemma_balance_fits(&self, account: ObjectID)
        ensures
            self@.accounts.contains_key(account) ==> i128::MIN
                <= self@.accounts[account].last_known_min_balance <= i128::MAX,
    {
    }

    /// A scheduler that starts out at the accumulator version that `balance_read` gives. Whatever
    /// version that is, nothing waits yet, and the first settlement is due to settle it.
    pub fn new<B: AccountBalanceRead>(balance_read: &B) -> (scheduler: Self)
        ensures
            call_ensures(
                B::get_accumulator_version,
                (balance_read,),
                scheduler@.last_known_settled_version,
            ),
            scheduler@ == SchedulerView::init(scheduler@.last_known_settled_version),
            scheduler@.wf(),
    {
        let cur_accumulator_version = balance_read.get_accumulator_version();
        WithdrawScheduler::with_settled_version(cur_accumulator_version)
    }

    /// A scheduler that starts out at a settled accumulator version.
    pub fn with_settled_version(version: SequenceNumber) -> (scheduler: Self)
        ensures
            scheduler@ == SchedulerView::init(version),
            scheduler@.wf(),
    {
        let scheduler = WithdrawScheduler {
            account_states: new_account_states(),
            registrations: RegistrationTable::new(),
            last_known_settled_version: version,
            pending_accumulator_versions: new_pending_versions(),
            pending_settlements: BTreeMap::new(),
            expected_version: version,
        };
        proof {
            let init = SchedulerView::init(version);
            assert(scheduler@.accounts =~= init.accounts);
            assert(scheduler@.registrations =~= init.registrations);
            assert(scheduler@.pending =~= init.pending);
            assert(scheduler@.settlements =~= init.settlements);
        }
        scheduler
    }

    /// The last settled accumulator version.
    pub fn last_known_settled_version(&self) -> (version: SequenceNumber)
        ensures
            version == self@.last_known_settled_version,
    {
        self.last_known_settled_version
    }

    /// Takes the state of an account out of the scheduler.
    fn take_account(&mut self, account_id: &ObjectID) -> (state: Option<AccountState>)
        ensures
            final(self)@ == (SchedulerView {
                accounts: old(self)@.accounts.remove(*account_id),
                ..old(self)@
            }),
            final(self).registrations == old(self).registrations,
            match state {
                Some(state) => old(self)@.accounts.contains_key(*account_id)
                    && old(self)@.accounts[*account_id] == state@,
                None => !old(self)@.accounts.contains_key(*account_id) && final(self)@ == old(
                    self,
                )@,
            },
    {
        let state = take_account_state(&mut self.account_states, account_id);
        assert(self@.accounts =~= old(self)@.accounts.remove(*account_id));
        proof {
            if state is None {
                assert(self@.accounts =~= old(self)@.accounts);
            }
        }
        state
    }

    /// Puts the state of an account into the scheduler.
    fn put_account(&mut self, account_id: ObjectID, state: AccountState)
        ensures
            final(self)@ == (SchedulerView {
                accounts: old(self)@.accounts.insert(account_id, state@),
                ..old(self)@
            }),
            final(self).registrations == old(self).registrations,
    {
        put_account_state(&mut self.account_states, account_id, state);
        assert(self@.accounts =~= old(self)@.accounts.insert(account_id, state@));
    }

    /// Serves the queue of an account for as long as its head can be scheduled, and returns the
    /// registrations that were, in the order of the queue. The transactions that wait for nothing
    /// more are added to `ready`. The account is forgotten where nothing is left of it.
    fn try_reserve_withdraws_for_account(
        &mut self,
        account_id: ObjectID,
        last_known_settled_version: SequenceNumber,
        ready: &mut BTreeSet<RegistrationId>,
    ) -> (scheduled_registrations: Vec<RegistrationId>)
        requires
            old(self)@.queues_match(),
            old(self)@.registrations_wait(),
            old(self)@.can_serve(account_id, last_known_settled_version),
        ensures
            final(self)@ == old(self)@.serve(set![account_id], last_known_settled_version),
            final(ready)@ == old(ready)@.union(
                old(self)@.newly_ready(set![account_id], last_known_settled_version),
            ),
            scheduled_registrations@ == old(self)@.granted_queue(
                account_id,
                last_known_settled_version,
            ),
    {
        let ghost before = self@;
        let mut scheduled_registrations: Vec<RegistrationId> = Vec::new();
        let mut account_state = match self.take_account(&account_id) {
            Some(account_state) => account_state,
            None => {
                proof {
                    lemma_serve_absent(before, account_id, last_known_settled_version);
                    assert(ready@.union(Set::empty()) =~= ready@);
                }
                return scheduled_registrations;
            },
        };
        let ghost start = account_state@;
        let ghost queue = start.enqueued;
        let ghost all = before.requests_of(account_id);
        let ghost mut count: int = 0;
        proof {
            lemma_serve_one(before, account_id, last_known_settled_version);
            assert(all.skip(0) =~= all);
            assert(queue.skip(0) =~= queue);
            assert(release(before.registrations, account_id, queue.take(0))
                =~= before.registrations);
            assert(ready@ =~= ready@.union(
                released(before.registrations, account_id, queue.take(0)),
            ));
        }
        loop
            invariant
                0 <= count <= queue.len(),
                before.queues_match(),
                before.registrations_wait(),
                before.accounts.contains_key(account_id),
                queue == before.accounts[account_id].enqueued,
                all == before.requests_of(account_id),
                account_state@.enqueued == queue.skip(count),
                scheduled_registrations@ =~= queue.take(count),
                self@ == (SchedulerView {
                    accounts: before.accounts.remove(account_id),
                    registrations: release(before.registrations, account_id, queue.take(count)),
                    ..before
                }),
                ready@ == old(ready)@.union(
                    released(before.registrations, account_id, queue.take(count)),
                ),
                start.reserve_all(all, last_known_settled_version) == account_state@.reserve_all(
                    all.skip(count),
                    last_known_settled_version,
                ),
                account_state@.reserve_all_fits(all.skip(count), last_known_settled_version),
                start.granted_count(all, last_known_settled_version) == count
                    + account_state@.granted_count(all.skip(count), last_known_settled_version),
            ensures
                account_state@ == start.reserve_all(all, last_known_settled_version),
                count == start.granted_count(all, last_known_settled_version),
            decreases queue.len() - count,
        {
            let ghost registrations = self.registrations@;
            proof {
                if count < queue.len() {
                    lemma_release_keeps(before, account_id, count);
                    assert(all.skip(count).drop_first() =~= all.skip(count + 1));
                    assert(queue.skip(count).drop_first() =~= queue.skip(count + 1));
                }
            }
            let scheduled = account_state.try_schedule_next_reservation(
                &account_id,
                last_known_settled_version,
                &mut self.registrations,
            );
            match scheduled {
                None => {
                    break;
                },
                Some(id) => {
                    proof {
                        lemma_release_next(before, account_id, count);
                        count = count + 1;
                    }
                    scheduled_registrations.push(id);
                    let is_ready = match self.registrations.get(&id) {
                        Some(registration) => registration.result
                            == ScheduleResult::ReadyForExecution,
                        None => false,
                    };
                    if is_ready {
                        self.registrations.remove(&id);
                        ready.insert(id);
                    }
                },
            }
        }
        if !account_state.is_empty() {
            self.put_account(account_id, account_state);
        }
        scheduled_registrations
    }

    /// Takes what is outstanding at a version out of the scheduler.
    fn take_pending(&mut self, version: &SequenceNumber) -> (pending: Option<
        PendingAccumulatorVersion,
    >)
        ensures
            final(self)@ == (SchedulerView {
                pending: old(self)@.pending.remove(*version),
                ..old(self)@
            }),
            final(self).registrations == old(self).registrations,
            match pending {
                Some(pending) => old(self)@.pending.contains_key(*version)
                    && old(self)@.pending[*version] == pending@,
                None => !old(self)@.pending.contains_key(*version) && final(self)@ == old(self)@,
            },
    {
        let pending = take_pending_version(&mut self.pending_accumulator_versions, version);
        assert(self@.pending =~= old(self)@.pending.remove(*version));
        proof {
            if pending is None {
                assert(self@.pending =~= old(self)@.pending);
            }
        }
        pending
    }

    /// Puts what is outstanding at a version into the scheduler.
    fn put_pending(&mut self, version: SequenceNumber, pending: PendingAccumulatorVersion)
        ensures
            final(self)@ == (SchedulerView {
                pending: old(self)@.pending.insert(version, pending@),
                ..old(self)@
            }),
            final(self).registrations == old(self).registrations,
    {
        put_pending_version(&mut self.pending_accumulator_versions, version, pending);
        assert(self@.pending =~= old(self)@.pending.insert(version, pending@));
    }

    /// Serves the queues of the listed accounts.
    fn try_reserve_withdraws_for_accounts(
        &mut self,
        accounts: &Vec<ObjectID>,
        last_known_settled_version: SequenceNumber,
    ) -> (ready: BTreeSet<RegistrationId>)
        requires
            accounts@.no_duplicates(),
            old(self)@.queues_match(),
            old(self)@.registrations_wait(),
            forall|account: ObjectID| #[trigger]
                accounts@.to_set().contains(account) ==> old(self)@.can_serve(
                    account,
                    last_known_settled_version,
                ),
        ensures
            final(self)@ == old(self)@.serve(accounts@.to_set(), last_known_settled_version),
            ready@ == old(self)@.newly_ready(accounts@.to_set(), last_known_settled_version),
    {
        let ghost before = self@;
        let mut ready: BTreeSet<RegistrationId> = BTreeSet::new();
        let mut i: usize = 0;
        proof {
            lemma_serve_none(before, last_known_settled_version);
            assert(accounts@.take(0).to_set() =~= Set::<ObjectID>::empty());
        }
        while i < accounts.len()
            invariant
                i <= accounts.len(),
                accounts@.no_duplicates(),
                before.queues_match(),
                before.registrations_wait(),
                forall|account: ObjectID| #[trigger]
                    accounts@.to_set().contains(account) ==> before.can_serve(
                        account,
                        last_known_settled_version,
                    ),
                self@ == before.serve(
                    accounts@.take(i as int).to_set(),
                    last_known_settled_version,
                ),
                ready@ == before.newly_ready(
                    accounts@.take(i as int).to_set(),
                    last_known_settled_version,
                ),
            decreases accounts.len() - i,
        {
            let ghost served = accounts@.take(i as int).to_set();
            proof {
                assert(accounts@.to_set().contains(accounts@[i as int]));
                lemma_take_next(accounts@, i as int);
                lemma_serve_keeps_queues(before, served, last_known_settled_version);
                lemma_serve_leaves_others(
                    before,
                    served,
                    accounts@[i as int],
                    last_known_settled_version,
                );
                lemma_serve_union(
                    before,
                    served,
                    set![accounts@[i as int]],
                    last_known_settled_version,
                );
                assert(served.union(set![accounts@[i as int]]) =~= accounts@.take(
                    i + 1,
                ).to_set());
            }
            self.try_reserve_withdraws_for_account(
                accounts[i],
                last_known_settled_version,
                &mut ready,
            );
            i = i + 1;
        }
        assert(accounts@.take(i as int) =~= accounts@);
        ready
    }

    /// Lists the accounts that a settlement changes the balance of, the given ones that it has to
    /// give reservations back to, and those in whose queues something waits.
    fn accounts_to_ask(
        &self,
        settlement: &BalanceSettlement,
        pending_accounts: &Vec<ObjectID>,
    ) -> (accounts: Vec<ObjectID>)
        requires
            self@.queues_match(),
        ensures
            accounts@.no_duplicates(),
            accounts@.to_set() == settlement@.balance_changes.dom().union(
                pending_accounts@.to_set(),
            ).union(self@.with_queue()),
    {
        let mut unique_accounts = self.registrations.waiting_accounts();
        proof {
            assert forall|account: ObjectID| #[trigger]
                unique_accounts@.contains(account) <==> self@.with_queue().contains(account) by {
                lemma_with_queue(self@, account);
            }
        }
        extend(&mut unique_accounts, &keys_of(&settlement.balance_changes));
        extend(&mut unique_accounts, pending_accounts);
        let accounts = accounts_of(&unique_accounts);
        assert(accounts@.to_set() =~= settlement@.balance_changes.dom().union(
            pending_accounts@.to_set(),
        ).union(self@.with_queue()));
        accounts
    }

    /// Processes one settlement: gives back what was reserved at the version that it settles,
    /// changes the balances, and serves the queues of all accounts. Returns the transactions that
    /// it makes ready.
    fn process_settlement(&mut self, settlement: BalanceSettlement) -> (ready: BTreeSet<
        RegistrationId,
    >)
        requires
            old(self)@.wf(),
            old(self)@.can_settle(settlement@),
        ensures
            final(self)@ == old(self)@.process_settlement(settlement@),
            final(self)@.wf(),
            ready@ == old(self)@.ready_at_settlement(settlement@),
    {
        let ghost before = self@;
        let ghost details = settlement@;
        let ghost version = settlement.old_accumulator_version;
        self.last_known_settled_version = settlement.new_accumulator_version;

        let changed_accounts = keys_of(&settlement.balance_changes);
        let pending_accounts = match self.take_pending(&settlement.old_accumulator_version) {
            Some(pending) => accounts_of(&pending.accounts),
            None => Vec::new(),
        };
        let ghost due = before.due_accounts(version);
        assert(pending_accounts@.to_set() =~= due);
        proof {
            lemma_same_queues(before, self@);
        }
        let asked_accounts = self.accounts_to_ask(&settlement, &pending_accounts);
        let ghost asked = asked_accounts@.to_set();
        assert(asked =~= before.touched_by(details).union(before.with_queue()));

        let mut i: usize = 0;
        let ghost cleared = self@;
        assert(cleared.accounts =~= give_back(before.accounts, Set::empty(), version));
        assert(pending_accounts@.take(0).to_set() =~= Set::<ObjectID>::empty());
        while i < pending_accounts.len()
            invariant
                i <= pending_accounts.len(),
                pending_accounts@.no_duplicates(),
                pending_accounts@.to_set() == due,
                due == before.due_accounts(version),
                details == settlement@,
                version == settlement.old_accumulator_version,
                before.can_settle(details),
                self@ == (SchedulerView {
                    accounts: give_back(
                        before.accounts,
                        pending_accounts@.take(i as int).to_set(),
                        version,
                    ),
                    ..cleared
                }),
            decreases pending_accounts.len() - i,
        {
            let account_id: ObjectID = pending_accounts[i];
            let ghost done = pending_accounts@.take(i as int).to_set();
            proof {
                lemma_take_next(pending_accounts@, i as int);
                assert(pending_accounts@.to_set().contains(account_id));
                assert(before.asked_by(details).contains(account_id));
            }
            if let Some(mut account_state) = self.take_account(&account_id) {
                account_state.settle_accumulator_version(settlement.old_accumulator_version);
                self.put_account(account_id, account_state);
            }
            assert(self@.accounts =~= give_back(before.accounts, done.insert(account_id), version));
            i = i + 1;
        }
        assert(pending_accounts@.take(i as int) =~= pending_accounts@);

        let mut j: usize = 0;
        let ghost given_back = self@;
        assert(given_back.accounts =~= change_balances(
            given_back.accounts,
            Set::empty(),
            details,
        ));
        assert(changed_accounts@.take(0).to_set() =~= Set::<ObjectID>::empty());
        while j < changed_accounts.len()
            invariant
                j <= changed_accounts.len(),
                changed_accounts@.no_duplicates(),
                changed_accounts@.to_set() == details.balance_changes.dom(),
                details == settlement@,
                version == settlement.old_accumulator_version,
                before.can_settle(details),
                given_back.accounts == give_back(
                    before.accounts,
                    before.due_accounts(version),
                    version,
                ),
                self@ == (SchedulerView {
                    accounts: change_balances(
                        given_back.accounts,
                        changed_accounts@.take(j as int).to_set(),
                        details,
                    ),
                    ..given_back
                }),
            decreases changed_accounts.len() - j,
        {
            let account_id: ObjectID = changed_accounts[j];
            let ghost done = changed_accounts@.take(j as int).to_set();
            proof {
                lemma_take_next(changed_accounts@, j as int);
                assert(changed_accounts@.to_set().contains(account_id));
                assert(before.asked_by(details).contains(account_id));
            }
            if let Some(mut account_state) = self.take_account(&account_id) {
                if let Some(balance_change) = settlement.balance_changes.get(&account_id) {
                    account_state.settle_balance_change(*balance_change);
                }
                self.put_account(account_id, account_state);
            }
            assert(self@.accounts =~= change_balances(
                given_back.accounts,
                done.insert(account_id),
                details,
            ));
            j = j + 1;
        }
        assert(changed_accounts@.take(j as int) =~= changed_accounts@);
        assert(self@.accounts =~= before.settle_balances(details).accounts);
        assert(self@ == before.settle_balances(details));
        proof {
            let settled = settlement.new_accumulator_version;
            lemma_settle_balances_keeps_wf(before, details);
            lemma_serve_restores_wf(self@, before.asked_by(details));
            assert forall|account: ObjectID| #[trigger]
                asked.contains(account) implies self@.can_serve(account, settled) by {
                assert(before.asked_by(details).contains(account));
                assert(before.can_settle_account(details, account));
            }
            lemma_serve_more(self@, asked, before.asked_by(details), settled);
        }
        self.try_reserve_withdraws_for_accounts(&asked_accounts, settlement.new_accumulator_version)
    }

    /// Whether a settlement can be processed. The scheduler is left as it is.
    fn can_process_settlement(&mut self, settlement: &BalanceSettlement) -> (possible: bool)
        requires
            old(self)@.wf(),
        ensures
            final(self)@ == old(self)@,
            possible == old(self)@.can_settle(settlement@),
    {
        let ghost before = self@;
        let ghost details = settlement@;
        let ghost version = settlement.old_accumulator_version;
        let ghost settled = before.settle_balances(details);
        let pending_accounts: BTreeSet<ObjectID> = match self.take_pending(
            &settlement.old_accumulator_version,
        ) {
            Some(pending) => {
                let accounts = pending.accounts.clone();
                self.put_pending(settlement.old_accumulator_version, pending);
                assert(self@.pending =~= before.pending);
                accounts
            },
            None => BTreeSet::new(),
        };
        assert(pending_accounts@ == before.due_accounts(version));
        let asked_accounts = self.accounts_to_ask(settlement, &accounts_of(&pending_accounts));
        assert(asked_accounts@.to_set() =~= before.touched_by(details).union(before.with_queue()));
        let mut i: usize = 0;
        while i < asked_accounts.len()
            invariant
                i <= asked_accounts.len(),
                before.wf(),
                before == old(self)@,
                self@ == before,
                details == settlement@,
                version == settlement.old_accumulator_version,
                settled == before.settle_balances(details),
                pending_accounts@ == before.due_accounts(version),
                asked_accounts@.to_set() == before.touched_by(details).union(before.with_queue()),
                forall|k: int|
                    0 <= k < i ==> before.can_settle_account(
                        details,
                        #[trigger] asked_accounts@[k],
                    ),
            decreases asked_accounts.len() - i,
        {
            let account_id: ObjectID = asked_accounts[i];
            let is_due = pending_accounts.contains(&account_id);
            assert(asked_accounts@.to_set().contains(account_id));
            assert(before.asked_by(details).contains(account_id));
            let possible = match self.take_account(&account_id) {
                None => !is_due,
                Some(account_state) => {
                    let due: Option<SequenceNumber> = if is_due {
                        Some(settlement.old_accumulator_version)
                    } else {
                        None
                    };
                    let change: i128 = match settlement.balance_changes.get(&account_id) {
                        Some(change) => *change,
                        None => 0,
                    };
                    proof {
                        let queue = account_state@.enqueued;
                        assert forall|k: int| 0 <= k < queue.len() implies #[trigger] waits_for(
                            before.registrations,
                            account_id,
                            queue[k],
                        ) by {
                            assert(before.is_queued(account_id, queue[k]));
                        }
                    }
                    let possible = account_state.can_settle(
                        due,
                        change,
                        &account_id,
                        settlement.new_accumulator_version,
                        &self.registrations,
                    );
                    self.put_account(account_id, account_state);
                    assert(self@.accounts =~= before.accounts);
                    assert(settled.requests_of(account_id) == before.requests_of(account_id));
                    possible
                },
            };
            assert(possible == before.can_settle_account(details, account_id));
            if !possible {
                return false;
            }
            i = i + 1;
        }
        proof {
            assert forall|account: ObjectID| #[trigger]
                before.asked_by(details).contains(account) implies before.can_settle_account(
                details,
                account,
            ) by {
                if asked_accounts@.to_set().contains(account) {
                    let k = asked_accounts@.index_of(account);
                    assert(before.can_settle_account(details, asked_accounts@[k]));
                } else {
                    self.lemma_balance_fits(account);
                }
            }
        }
        true
    }

    /// Takes in a settlement and processes, in turn, the settlements that have arrived, each at
    /// the version that the one before it has settled on. Stops at one that is missing, and at one
    /// that cannot be processed: that one stays where it is.
    pub fn try_handle_balance_settlement(
        &mut self,
        settlement: BalanceSettlement,
    ) -> (progress: SettlementProgress)
        requires
            old(self)@.wf(),
        ensures
            final(self)@ == old(self)@.receive_settlement(settlement@).process_settlements(),
            final(self)@.wf(),
            progress.ready@ == old(self)@.receive_settlement(settlement@).ready_at_settlements(),
            progress.stuck == final(self)@.is_stuck(),
    {
        let ghost start = self@.receive_settlement(settlement@);
        let ghost initial = self@;
        self.pending_settlements.insert(settlement.old_accumulator_version, settlement);
        assert(self@.settlements =~= start.settlements);
        proof {
            lemma_wf_keeps(initial, self@);
        }
        let mut ready: BTreeSet<RegistrationId> = BTreeSet::new();
        assert(ready@.union(self@.ready_at_settlements()) =~= start.ready_at_settlements());
        loop
            invariant
                start == old(self)@.receive_settlement(settlement@),
                self@.wf(),
                self@.process_settlements() == start.process_settlements(),
                ready@.union(self@.ready_at_settlements()) == start.ready_at_settlements(),
            decreases self@.settlements.len(),
        {
            let ghost before = self@;
            let next = match self.pending_settlements.remove(&self.expected_version) {
                Some(next) => next,
                None => {
                    assert(ready@ =~= ready@.union(Set::empty()));
                    return SettlementProgress { ready, stuck: false };
                },
            };
            let version: SequenceNumber = self.expected_version;
            self.expected_version = next.new_accumulator_version;
            assert(self@.settlements =~= before.take_settlement().settlements);
            assert(self@ == before.take_settlement());
            proof {
                lemma_wf_keeps(before, self@);
            }
            if !self.can_process_settlement(&next) {
                self.expected_version = version;
                self.pending_settlements.insert(version, next);
                assert(self@.settlements =~= before.settlements);
                assert(ready@ =~= ready@.union(Set::empty()));
                return SettlementProgress { ready, stuck: true };
            }
            let ghost so_far = ready@;
            let ghost rest = before.take_settlement().process_settlement(before.next_settlement());
            let newly_ready = self.process_settlement(next);
            let ghost added = newly_ready@;
            union(&mut ready, &newly_ready);
            assert(so_far.union(added.union(rest.ready_at_settlements())) =~= ready@.union(
                rest.ready_at_settlements(),
            ));
        }
    }

    /// Takes in a settlement and processes, in turn, the settlements that have arrived, each at
    /// the version that the one before it has settled on. Returns the transactions that have
    /// become ready.
    pub fn handle_balance_settlement(&mut self, settlement: BalanceSettlement) -> (ready: BTreeSet<
        RegistrationId,
    >)
        requires
            old(self)@.wf(),
            !old(self)@.receive_settlement(settlement@).process_settlements().is_stuck(),
        ensures
            final(self)@ == old(self)@.receive_settlement(settlement@).process_settlements(),
            final(self)@.wf(),
            ready@ == old(self)@.receive_settlement(settlement@).ready_at_settlements(),
    {
        self.try_handle_balance_settlement(settlement).ready
    }

    /// Takes note of the transactions of a list and returns those that are new at this version.
    fn note_withdraws(
        &mut self,
        accumulator_version: SequenceNumber,
        withdraws: Vec<TxBalanceWithdraw>,
    ) -> (withdraws_to_schedule: Vec<TxBalanceWithdraw>)
        ensures
            final(self)@ == old(self)@.note(accumulator_version, withdraws_view(withdraws@)),
            final(self).registrations == old(self).registrations,
            withdraws_view(withdraws_to_schedule@) == old(self)@.unseen(
                accumulator_version,
                withdraws_view(withdraws@),
            ),
            withdraws_to_schedule@.len() <= withdraws@.len(),
    {
        let ghost before = self@;
        let ghost all = withdraws_view(withdraws@);
        let ghost seen = before.seen_at(accumulator_version);
        let ghost due = before.due_accounts(accumulator_version);
        let mut pending = match self.take_pending(&accumulator_version) {
            Some(pending) => pending,
            None => PendingAccumulatorVersion::default(),
        };
        let mut withdraws_to_schedule: Vec<TxBalanceWithdraw> = Vec::new();
        proof {
            assert(digests(all.take(0)).to_set() =~= Set::<TransactionDigest>::empty());
            assert(accounts_touched(all.take(0)) =~= Set::<ObjectID>::empty());
            assert(withdraws_view(withdraws_to_schedule@) =~= Seq::empty());
            assert(pending@.transactions =~= seen.union(Set::empty()));
            assert(pending@.accounts =~= due.union(Set::empty()));
        }
        for withdraw in iter: withdraws
            invariant
                iter.seq() == withdraws@,
                all == withdraws_view(withdraws@),
                withdraws_view(withdraws_to_schedule@) == first_of(all.take(iter.index()), seen),
                withdraws_to_schedule@.len() <= iter.index(),
                pending@.transactions == seen.union(digests(all.take(iter.index())).to_set()),
                pending@.accounts == due.union(
                    accounts_touched(withdraws_view(withdraws_to_schedule@)),
                ),
        {
            let ghost i = iter.index();
            let ghost so_far = withdraws_view(withdraws_to_schedule@);
            proof {
                assert(all.take(i + 1).drop_last() =~= all.take(i));
                assert(digests(all.take(i + 1)) =~= digests(all).take(i + 1));
                assert(digests(all.take(i)) =~= digests(all).take(i));
                lemma_take_next(digests(all), i);
            }
            if pending.transactions.insert(withdraw.tx_digest) {
                extend(&mut pending.accounts, &keys_of(&withdraw.reservations));
                withdraws_to_schedule.push(withdraw);
                proof {
                    assert(withdraws_view(withdraws_to_schedule@) =~= so_far.push(withdraw@));
                    lemma_touched_push(so_far, withdraw@);
                    assert(pending@.accounts =~= due.union(
                        accounts_touched(so_far.push(withdraw@)),
                    ));
                }
            }
            assert(pending@.transactions =~= seen.union(digests(all.take(i + 1)).to_set()));
        }
        assert(all.take(all.len() as int) =~= all);
        self.put_pending(accumulator_version, pending);
        assert(self@.pending =~= before.note(accumulator_version, all).pending);
        withdraws_to_schedule
    }

    /// Registers the transactions of a list. Returns the digests with the identifiers, in the
    /// order of the list, and for each account the registrations that are to stand in its queue.
    fn register_withdraws(
        &mut self,
        accumulator_version: SequenceNumber,
        withdraws: Vec<TxBalanceWithdraw>,
    ) -> (registered: (
        Vec<(TransactionDigest, RegistrationId)>,
        BTreeMap<ObjectID, Vec<RegistrationId>>,
    ))
        requires
            old(self)@.registrations_wait(),
            old(self)@.next_registration + withdraws@.len() <= RegistrationId::MAX,
        ensures
            final(self)@ == (SchedulerView {
                registrations: add_registrations(
                    old(self)@.registrations,
                    old(self)@.next_registration,
                    accumulator_version,
                    withdraws_view(withdraws@),
                ),
                next_registration: (old(self)@.next_registration + withdraws@.len()) as u64,
                ..old(self)@
            }),
            registered.0@ == numbered(
                digests(withdraws_view(withdraws@)),
                old(self)@.next_registration,
            ),
            queues_listed(
                registered.1@,
                withdraws_view(withdraws@),
                old(self)@.next_registration,
            ),
    {
        let ghost before = self@;
        let ghost first = self@.next_registration;
        let ghost all = withdraws_view(withdraws@);
        let mut scheduled: Vec<(TransactionDigest, RegistrationId)> = Vec::new();
        let mut all_registrations: BTreeMap<ObjectID, Vec<RegistrationId>> = BTreeMap::new();
        proof {
            assert(add_registrations(before.registrations, first, accumulator_version, all.take(0))
                =~= before.registrations);
            assert(accounts_touched(all.take(0)) =~= Set::<ObjectID>::empty());
            assert(all_registrations@.dom() =~= accounts_touched(all.take(0)));
        }
        for withdraw in iter: withdraws
            invariant
                iter.seq() == withdraws@,
                all == withdraws_view(withdraws@),
                before.registrations_wait(),
                first == before.next_registration,
                first + withdraws@.len() <= RegistrationId::MAX,
                scheduled@ =~= numbered(digests(all.take(iter.index())), first),
                self@ == (SchedulerView {
                    registrations: add_registrations(
                        before.registrations,
                        first,
                        accumulator_version,
                        all.take(iter.index()),
                    ),
                    next_registration: (first + iter.index()) as u64,
                    ..before
                }),
                queues_listed(all_registrations@, all.take(iter.index()), first),
        {
            let ghost i = iter.index();
            let ghost registered = self@.registrations;
            proof {
                assert(all.take(i + 1) =~= all.take(i).push(withdraw@));
                assert(all.take(i + 1).drop_last() =~= all.take(i));
                assert(digests(all.take(i + 1)) =~= digests(all.take(i)).push(withdraw.tx_digest));
            }
            let pending_accounts = keys_of(&withdraw.reservations);
            let tx_digest: TransactionDigest = withdraw.tx_digest;
            let id: RegistrationId = self.registrations.register(
                TxWithdrawRegistration::new(accumulator_version, withdraw.reservations),
            );
            scheduled.push((tx_digest, id));
            if pending_accounts.len() == 0 {
                proof {
                    assert(pending_accounts@.to_set() =~= Set::<ObjectID>::empty());
                }
                self.registrations.remove(&id);
            } else {
                assert(pending_accounts@.to_set().contains(pending_accounts@[0]));
            }
            assert(self@.registrations =~= add_registrations(
                before.registrations,
                first,
                accumulator_version,
                all.take(i + 1),
            ));
            list_registration(&mut all_registrations, &pending_accounts, id);
            proof {
                lemma_touched_push(all.take(i), withdraw@);
                assert(all_registrations@.dom() =~= accounts_touched(all.take(i + 1)));
                assert forall|account: ObjectID| #[trigger]
                    all_registrations@.contains_key(account) implies all_registrations@[account]@
                    == ids_for(all.take(i + 1), first, account) by {
                    if !accounts_touched(all.take(i)).contains(account) {
                        lemma_no_ids_for(all.take(i), first, account);
                    }
                }
            }
        }
        assert(all.take(all.len() as int) =~= all);
        (scheduled, all_registrations)
    }

    /// Appends the listed registrations to the queues of their accounts. An account that is not
    /// known yet starts out with its settled balance.
    fn enqueue_registrations<B: AccountBalanceRead>(
        &mut self,
        accounts: &Vec<ObjectID>,
        all_registrations: BTreeMap<ObjectID, Vec<RegistrationId>>,
        balance_read: &B,
    )
        requires
            accounts@.no_duplicates(),
            accounts@.to_set() == all_registrations@.dom(),
        ensures
            final(self)@ == (SchedulerView {
                accounts: append_lists(
                    old(self)@.accounts,
                    all_registrations@,
                    balances_at(balance_read, old(self)@.last_known_settled_version),
                    all_registrations@.dom(),
                ),
                ..old(self)@
            }),
    {
        let ghost before = self@;
        let ghost balance = balances_at(balance_read, before.last_known_settled_version);
        let mut all_registrations = all_registrations;
        let ghost listed = all_registrations@;
        let last_known_settled_version: SequenceNumber = self.last_known_settled_version;
        let mut i: usize = 0;
        proof {
            assert(accounts@.take(0).to_set() =~= Set::<ObjectID>::empty());
            assert(before.accounts =~= append_lists(
                before.accounts,
                listed,
                balance,
                Set::empty(),
            ));
            assert(listed =~= listed.remove_keys(Set::empty()));
        }
        while i < accounts.len()
            invariant
                i <= accounts.len(),
                accounts@.no_duplicates(),
                accounts@.to_set() == listed.dom(),
                last_known_settled_version == before.last_known_settled_version,
                balance == balances_at(balance_read, before.last_known_settled_version),
                all_registrations@ == listed.remove_keys(accounts@.take(i as int).to_set()),
                self@ == (SchedulerView {
                    accounts: append_lists(
                        before.accounts,
                        listed,
                        balance,
                        accounts@.take(i as int).to_set(),
                    ),
                    ..before
                }),
            decreases accounts.len() - i,
        {
            let account_id: ObjectID = accounts[i];
            let ghost done = accounts@.take(i as int).to_set();
            proof {
                lemma_take_next(accounts@, i as int);
                assert(accounts@.to_set().contains(account_id));
                assert(listed.contains_key(account_id));
            }
            let mut account_state = match self.take_account(&account_id) {
                Some(account_state) => account_state,
                None => AccountState::new(balance_read, &account_id, last_known_settled_version),
            };
            if let Some(registrations) = all_registrations.remove(&account_id) {
                account_state.add_registrations(registrations);
            }
            self.put_account(account_id, account_state);
            assert(self@.accounts =~= append_lists(
                before.accounts,
                listed,
                balance,
                done.insert(account_id),
            ));
            assert(all_registrations@ =~= listed.remove_keys(done.insert(account_id)));
            i = i + 1;
        }
        assert(accounts@.take(i as int) =~= accounts@);
    }

    /// Whether the queues of the listed accounts can be served. The scheduler is left as it is.
    fn can_reserve_withdraws_for_accounts(
        &mut self,
        accounts: &Vec<ObjectID>,
        last_known_settled_version: SequenceNumber,
    ) -> (possible: bool)
        requires
            old(self)@.queues_match(),
        ensures
            final(self)@ == old(self)@,
            possible == (forall|account: ObjectID| #[trigger]
                accounts@.to_set().contains(account) ==> old(self)@.can_serve(
                    account,
                    last_known_settled_version,
                )),
    {
        let ghost before = self@;
        let mut i: usize = 0;
        while i < accounts.len()
            invariant
                i <= accounts.len(),
                before == old(self)@,
                before.queues_match(),
                self@ == before,
                forall|k: int|
                    0 <= k < i ==> before.can_serve(
                        #[trigger] accounts@[k],
                        last_known_settled_version,
                    ),
            decreases accounts.len() - i,
        {
            let account_id: ObjectID = accounts[i];
            assert(accounts@.to_set().contains(account_id));
            if let Some(account_state) = self.take_account(&account_id) {
                proof {
                    let queue = account_state@.enqueued;
                    assert forall|k: int| 0 <= k < queue.len() implies #[trigger] waits_for(
                        before.registrations,
                        account_id,
                        queue[k],
                    ) by {
                        assert(before.is_queued(account_id, queue[k]));
                    }
                    assert(account_state@.settle(None, 0) == account_state@);
                }
                let possible = account_state.can_settle(
                    None,
                    0,
                    &account_id,
                    last_known_settled_version,
                    &self.registrations,
                );
                self.put_account(account_id, account_state);
                assert(self@.accounts =~= before.accounts);
                if !possible {
                    return false;
                }
            }
            i = i + 1;
        }
        proof {
            assert forall|account: ObjectID| #[trigger]
                accounts@.to_set().contains(account) implies before.can_serve(
                account,
                last_known_settled_version,
            ) by {
                let k = accounts@.index_of(account);
                assert(before.can_serve(accounts@[k], last_known_settled_version));
            }
        }
        true
    }

    /// A copy of what is outstanding at a version. The scheduler is left as it is.
    fn copy_pending(&mut self, version: &SequenceNumber) -> (pending: Option<
        PendingAccumulatorVersion,
    >)
        ensures
            final(self)@ == old(self)@,
            match pending {
                Some(pending) => old(self)@.pending.contains_key(*version)
                    && old(self)@.pending[*version] == pending@,
                None => !old(self)@.pending.contains_key(*version),
            },
    {
        match self.take_pending(version) {
            Some(pending) => {
                let copy = PendingAccumulatorVersion {
                    transactions: pending.transactions.clone(),
                    accounts: pending.accounts.clone(),
                };
                self.put_pending(*version, pending);
                assert(self@.pending =~= old(self)@.pending);
                Some(copy)
            },
            None => None,
        }
    }

    /// Takes the latest registrations back, from the identifier `first` on, out of the queues of
    /// the listed accounts. An account that then has nothing waiting and nothing reserved is
    /// forgotten.
    fn take_back_registrations(&mut self, accounts: &Vec<ObjectID>, first: RegistrationId)
        requires
            accounts@.no_duplicates(),
            first <= old(self)@.next_registration,
        ensures
            final(self)@ == (SchedulerView {
                accounts: cut_queues(old(self)@.accounts, first, accounts@.to_set()),
                registrations: old(self)@.registrations.remove_keys(
                    Set::new(
                        |id: RegistrationId| first <= id < old(self)@.next_registration,
                    ),
                ),
                next_registration: first,
                ..old(self)@
            }),
    {
        self.registrations.take_back(first);
        let ghost before = self@;
        let mut i: usize = 0;
        proof {
            assert(accounts@.take(0).to_set() =~= Set::<ObjectID>::empty());
            assert(before.accounts =~= cut_queues(before.accounts, first, Set::empty()));
        }
        while i < accounts.len()
            invariant
                i <= accounts.len(),
                accounts@.no_duplicates(),
                self@ == (SchedulerView {
                    accounts: cut_queues(before.accounts, first, accounts@.take(i as int).to_set()),
                    ..before
                }),
            decreases accounts.len() - i,
        {
            let account_id: ObjectID = accounts[i];
            let ghost done = accounts@.take(i as int).to_set();
            proof {
                lemma_take_next(accounts@, i as int);
            }
            if let Some(mut account_state) = self.take_account(&account_id) {
                account_state.take_back(first);
                if !account_state.is_empty() {
                    self.put_account(account_id, account_state);
                }
            }
            assert(self@.accounts =~= cut_queues(before.accounts, first, done.insert(account_id)));
            i = i + 1;
        }
        assert(accounts@.take(i as int) =~= accounts@);
    }

    /// Enqueues the withdraw reservations of transactions, as
    /// [`WithdrawScheduler::enqueue_withdraw_reservations`] does, where that is possible. Where
    /// the identifiers for new registrations are used up or a number would overflow, nothing is
    /// done.
    pub fn try_enqueue_withdraw_reservations<B: AccountBalanceRead>(
        &mut self,
        accumulator_version: SequenceNumber,
        withdraws: Vec<TxBalanceWithdraw>,
        balance_read: &B,
    ) -> (receivers: Option<BTreeMap<TransactionDigest, ScheduleReceiver>>)
        requires
            old(self)@.wf(),
        ensures
            final(self)@.wf(),
            ({
                let all = withdraws_view(withdraws@);
                let balance = balances_at(balance_read, old(self)@.last_known_settled_version);
                if old(self)@.can_enqueue(accumulator_version, all, balance) {
                    &&& final(self)@ == old(self)@.enqueue(accumulator_version, all, balance)
                    &&& receivers is Some
                    &&& receivers->Some_0@ == old(self)@.receivers(
                        accumulator_version,
                        all,
                        balance,
                    )
                } else {
                    &&& final(self)@ == old(self)@
                    &&& receivers is None
                }
            }),
            forall|account: ObjectID|
                !old(self)@.accounts.contains_key(account)
                    && #[trigger] final(self)@.accounts.contains_key(account) ==> settled_balance(
                    final(self)@.accounts[account],
                ) == balance_read.account_balance(account, old(self)@.last_known_settled_version),
    {
        let ghost before = self@;
        let ghost all = withdraws_view(withdraws@);
        let ghost balance = balances_at(balance_read, before.last_known_settled_version);
        if withdraws.len() == 0 {
            let receivers: BTreeMap<TransactionDigest, ScheduleReceiver> = BTreeMap::new();
            assert(receivers@ =~= before.receivers(accumulator_version, all, balance));
            return Some(receivers);
        }
        let last_known_settled_version: SequenceNumber = self.last_known_settled_version;
        if last_known_settled_version > accumulator_version {
            // Accumulator object version can only be updated through settlement transactions.
            // A settlement transaction can only be executed after all previous transactions have
            // been executed, because the construction of a settlement transaction requires the
            // effects of all previous transactions from the same consensus commit.
            // Because of this, if the current accumulator version is greater than the
            // accumulator version of the transactions to be scheduled, we know that the
            // transactions must have already been executed. And hence there is no need to schedule
            // the withdraw reservations for these transactions.
            let receivers = already_executed(&withdraws);
            assert(receivers@ =~= before.receivers(accumulator_version, all, balance));
            return Some(receivers);
        }
        if !self.registrations.has_room(withdraws.len()) {
            return None;
        }
        let ghost unseen = before.unseen(accumulator_version, all);
        let first: RegistrationId = self.registrations.upcoming_id();
        let noted = self.copy_pending(&accumulator_version);
        let withdraws_to_schedule = self.note_withdraws(accumulator_version, withdraws);
        let (scheduled, all_registrations) = self.register_withdraws(
            accumulator_version,
            withdraws_to_schedule,
        );
        let accounts = keys_of(&all_registrations);
        self.enqueue_registrations(&accounts, all_registrations, balance_read);
        let ghost registered = before.register(accumulator_version, all, balance);
        proof {
            assert(self@.accounts =~= registered.accounts);
            assert(self@ == registered);
            lemma_register_keeps_wf(before, accumulator_version, all, balance);
        }
        if !self.can_reserve_withdraws_for_accounts(&accounts, last_known_settled_version) {
            self.take_back_registrations(&accounts, first);
            match noted {
                Some(pending) => self.put_pending(accumulator_version, pending),
                None => {
                    self.take_pending(&accumulator_version);
                },
            }
            proof {
                lemma_taken_back(before, accumulator_version, all, balance);
                assert(self@.pending =~= before.pending);
            }
            return None;
        }
        let ready = self.try_reserve_withdraws_for_accounts(&accounts, last_known_settled_version);
        proof {
            lemma_serve_restores_wf(registered, accounts_touched(unseen));
        }
        let ghost tx_digests = digests(unseen);
        proof {
            lemma_first_of_distinct(all, before.seen_at(accumulator_version));
            assert forall|i: int, j: int| 0 <= i < j < scheduled@.len() implies (
            #[trigger] scheduled@[i]).0 != (#[trigger] scheduled@[j]).0 by {
                assert(tx_digests[i] != tx_digests[j]);
            }
        }
        let receivers = hand_out(&scheduled, &ready, &self.registrations);
        proof {
            let expected = before.receivers(accumulator_version, all, balance);
            assert forall|digest: TransactionDigest| #[trigger]
                receivers@.contains_key(digest) <==> expected.contains_key(digest) by {
                if tx_digests.contains(digest) {
                    let i = tx_digests.index_of(digest);
                    assert(scheduled@[i].0 == digest);
                }
            }
            assert forall|digest: TransactionDigest| #[trigger]
                receivers@.contains_key(digest) implies receivers@[digest] == expected[digest] by {
                let i = tx_digests.index_of(digest);
                let id = (first + i) as RegistrationId;
                assert(tx_digests.contains(digest));
                assert(scheduled@[i] == (digest, id));
                assert(!before.registrations.contains_key(id));
                assert(receivers@[scheduled@[i].0] == handed_out(id, ready@, self@.registrations));
            }
            assert(receivers@ =~= expected);
        }
        proof {
            assert forall|account: ObjectID|
                !before.accounts.contains_key(account) && #[trigger] self@.accounts.contains_key(
                    account,
                ) implies settled_balance(self@.accounts[account]) == balance_read.account_balance(
                account,
                before.last_known_settled_version,
            ) by {
                law_enqueuing_keeps_balances(before, accumulator_version, all, balance, account);
            }
        }
        Some(receivers)
    }

    /// Enqueues the withdraw reservations of the transactions in a list, which depend on
    /// `accumulator_version`. Tells of each new transaction whether it can be executed. Of one that
    /// has to wait, the registration is the one that a later settlement reports as ready.
    pub fn enqueue_withdraw_reservations<B: AccountBalanceRead>(
        &mut self,
        accumulator_version: SequenceNumber,
        withdraws: Vec<TxBalanceWithdraw>,
        balance_read: &B,
    ) -> (receivers: BTreeMap<TransactionDigest, ScheduleReceiver>)
        requires
            old(self)@.wf(),
            old(self)@.can_enqueue(
                accumulator_version,
                withdraws_view(withdraws@),
                balances_at(balance_read, old(self)@.last_known_settled_version),
            ),
        ensures
            final(self)@.wf(),
            final(self)@ == old(self)@.enqueue(
                accumulator_version,
                withdraws_view(withdraws@),
                balances_at(balance_read, old(self)@.last_known_settled_version),
            ),
            receivers@ == old(self)@.receivers(
                accumulator_version,
                withdraws_view(withdraws@),
                balances_at(balance_read, old(self)@.last_known_settled_version),
            ),
            forall|account: ObjectID|
                !old(self)@.accounts.contains_key(account)
                    && #[trigger] final(self)@.accounts.contains_key(account) ==> settled_balance(
                    final(self)@.accounts[account],
                ) == balance_read.account_balance(account, old(self)@.last_known_settled_version),
    {
        match self.try_enqueue_withdraw_reservations(
            accumulator_version,
            withdraws,
            balance_read,
        ) {
            Some(receivers) => receivers,
            None => BTreeMap::new(),
        }
    }
}

/// The accounts once the registrations from the identifier `first` on are out of the queues of
/// those in `done`.
spec fn cut_queues(
    accounts: Map<ObjectID, AccountView>,
    first: RegistrationId,
    done: Set<ObjectID>,
) -> Map<ObjectID, AccountView> {
    Map::new(
        |account: ObjectID|
            accounts.contains_key(account) && !(done.contains(account)
                && accounts[account].cut_back(first).is_empty()),
        |account: ObjectID|
            if done.contains(account) {
                accounts[account].cut_back(first)
            } else {
                accounts[account]
            },
    )
}

/// What has been registered and is taken back leaves no trace.
proof fn lemma_taken_back(
    state: SchedulerView,
    version: SequenceNumber,
    withdraws: Seq<WithdrawView>,
    balance: spec_fn(ObjectID) -> u64,
)
    requires
        state.wf(),
        state.has_room(withdraws),
    ensures
        ({
            let registered = state.register(version, withdraws, balance);
            let first = state.next_registration;
            &&& cut_queues(
                registered.accounts,
                first,
                accounts_touched(state.unseen(version, withdraws)),
            ) == state.accounts
            &&& registered.registrations.remove_keys(
                Set::new(|id: RegistrationId| first <= id < registered.next_registration),
            ) == state.registrations
        }),
{
    let registered = state.register(version, withdraws, balance);
    let first = state.next_registration;
    let unseen = state.unseen(version, withdraws);
    let touched = accounts_touched(unseen);
    lemma_first_of_distinct(withdraws, state.seen_at(version));
    assert(registered.registrations.remove_keys(
        Set::new(|id: RegistrationId| first <= id < registered.next_registration),
    ) =~= state.registrations);
    assert forall|account: ObjectID| touched.contains(account) implies (
    #[trigger] registered.accounts[account]).cut_back(first)
        == if state.accounts.contains_key(account) {
        state.accounts[account]
    } else {
        AccountView::with_balance(balance(account) as int)
    } by {
        let ids = ids_for(unseen, first, account);
        let queue = if state.accounts.contains_key(account) {
            state.accounts[account].enqueued
        } else {
            Seq::empty()
        };
        lemma_ids_for(unseen, first, account);
        assert forall|i: int| 0 <= i < ids.len() implies #[trigger] ids[i] >= first by {
            assert(ids.contains(ids[i]));
        }
        assert forall|i: int| 0 <= i < queue.len() implies #[trigger] queue[i] < first by {
            assert(state.is_queued(account, queue[i]));
            assert(state.is_pending(account, queue[i]));
        }
        lemma_cut_back_undoes(queue, ids, first);
    }
    assert(cut_queues(registered.accounts, first, touched) =~= state.accounts);
}

/// The digests of a list with their identifiers, numbered from `first`.
spec fn numbered(digests: Seq<TransactionDigest>, first: RegistrationId) -> Seq<
    (TransactionDigest, RegistrationId),
> {
    Seq::new(digests.len(), |i: int| (digests[i], (first + i) as RegistrationId))
}

/// What every transaction gets that has been executed already.
fn already_executed(withdraws: &Vec<TxBalanceWithdraw>) -> (receivers: BTreeMap<
    TransactionDigest,
    ScheduleReceiver,
>)
    ensures
        forall|digest: TransactionDigest| #[trigger]
            receivers@.contains_key(digest) <==> digests(withdraws_view(withdraws@)).contains(
                digest,
            ),
        forall|digest: TransactionDigest| #[trigger]
            receivers@.contains_key(digest) ==> receivers@[digest] == (ScheduleReceiver {
                result: ScheduleResult::AlreadyExecuted,
                registration: None,
            }),
{
    let ghost all = digests(withdraws_view(withdraws@));
    let mut receivers: BTreeMap<TransactionDigest, ScheduleReceiver> = BTreeMap::new();
    let mut i: usize = 0;
    assert(receivers@.dom() =~= all.take(0).to_set());
    while i < withdraws.len()
        invariant
            i <= withdraws.len(),
            all == digests(withdraws_view(withdraws@)),
            receivers@.dom() == all.take(i as int).to_set(),
            forall|digest: TransactionDigest| #[trigger]
                receivers@.contains_key(digest) ==> receivers@[digest] == (ScheduleReceiver {
                    result: ScheduleResult::AlreadyExecuted,
                    registration: None,
                }),
        decreases withdraws.len() - i,
    {
        receivers.insert(
            withdraws[i].tx_digest,
            ScheduleReceiver { result: ScheduleResult::AlreadyExecuted, registration: None },
        );
        proof {
            lemma_take_next(all, i as int);
        }
        assert(receivers@.dom() =~= all.take(i + 1).to_set());
        i = i + 1;
    }
    assert(all.take(i as int) =~= all);
    receivers
}

/// What each transaction that was scheduled gets: whether it is ready, and, while it still waits,
/// the registration under which it does.
fn hand_out(
    scheduled: &Vec<(TransactionDigest, RegistrationId)>,
    ready: &BTreeSet<RegistrationId>,
    waiting: &RegistrationTable,
) -> (receivers: BTreeMap<TransactionDigest, ScheduleReceiver>)
    requires
        forall|i: int, j: int|
            0 <= i < j < scheduled@.len() ==> (#[trigger] scheduled@[i]).0 != (
            #[trigger] scheduled@[j]).0,
    ensures
        forall|digest: TransactionDigest| #[trigger]
            receivers@.contains_key(digest) <==> exists|i: int|
                0 <= i < scheduled@.len() && (#[trigger] scheduled@[i]).0 == digest,
        forall|i: int|
            0 <= i < scheduled@.len() ==> receivers@[(#[trigger] scheduled@[i]).0]
                == handed_out(scheduled@[i].1, ready@, waiting@),
{
    let mut receivers: BTreeMap<TransactionDigest, ScheduleReceiver> = BTreeMap::new();
    let mut i: usize = 0;
    while i < scheduled.len()
        invariant
            i <= scheduled.len(),
            forall|j: int, k: int|
                0 <= j < k < scheduled@.len() ==> (#[trigger] scheduled@[j]).0 != (
                #[trigger] scheduled@[k]).0,
            forall|digest: TransactionDigest| #[trigger]
                receivers@.contains_key(digest) <==> exists|j: int|
                    0 <= j < i && (#[trigger] scheduled@[j]).0 == digest,
            forall|j: int|
                0 <= j < i ==> receivers@[(#[trigger] scheduled@[j]).0] == handed_out(
                    scheduled@[j].1,
                    ready@,
                    waiting@,
                ),
        decreases scheduled.len() - i,
    {
        let (tx_digest, id): (TransactionDigest, RegistrationId) = scheduled[i];
        let result = if ready.contains(&id) {
            ScheduleResult::ReadyForExecution
        } else {
            ScheduleResult::Init
        };
        let registration: Option<RegistrationId> = if waiting.get(&id).is_some() {
            Some(id)
        } else {
            None
        };
        let ghost so_far = receivers@;
        receivers.insert(tx_digest, ScheduleReceiver { result, registration });
        proof {
            assert(scheduled@[i as int].0 == tx_digest);
            assert forall|digest: TransactionDigest| #[trigger]
                receivers@.contains_key(digest) <==> exists|j: int|
                    0 <= j < i + 1 && (#[trigger] scheduled@[j]).0 == digest by {
                if so_far.contains_key(digest) {
                    let j = choose|j: int| 0 <= j < i && (#[trigger] scheduled@[j]).0 == digest;
                    assert(scheduled@[j].0 == digest);
                }
            }
        }
        i = i + 1;
    }
    receivers
}

/// What a transaction gets, given the ones that are ready and the ones that wait.
spec fn handed_out(
    id: RegistrationId,
    ready: Set<RegistrationId>,
    waiting: Map<RegistrationId, RegistrationView>,
) -> ScheduleReceiver {
    ScheduleReceiver {
        result: if ready.contains(id) {
            ScheduleResult::ReadyForExecution
        } else {
            ScheduleResult::Init
        },
        registration: if waiting.contains_key(id) {
            Some(id)
        } else {
            None
        },
    }
}

/// The accounts with the lists in `queues` appended for those in `done`. An account that was not
/// known starts out with its balance.
spec fn append_lists(
    accounts: Map<ObjectID, AccountView>,
    queues: Map<ObjectID, Vec<RegistrationId>>,
    balance: spec_fn(ObjectID) -> u64,
    done: Set<ObjectID>,
) -> Map<ObjectID, AccountView> {
    Map::new(
        |account: ObjectID| accounts.contains_key(account) || done.contains(account),
        |account: ObjectID|
            {
                let known = if accounts.contains_key(account) {
                    accounts[account]
                } else {
                    AccountView::with_balance(balance(account) as int)
                };
                if done.contains(account) {
                    known.enqueue(queues[account]@)
                } else {
                    known
                }
            },
    )
}

/// The lists in `queues` are those that [`ids_for`] gives, for the accounts that have one.
spec fn queues_listed(
    queues: Map<ObjectID, Vec<RegistrationId>>,
    withdraws: Seq<WithdrawView>,
    first: RegistrationId,
) -> bool {
    &&& queues.dom() == accounts_touched(withdraws)
    &&& forall|account: ObjectID| #[trigger]
        queues.contains_key(account) ==> queues[account]@ == ids_for(withdraws, first, account)
}

/// The list of an account, which is empty where it has none.
spec fn listed_for(
    queues: Map<ObjectID, Vec<RegistrationId>>,
    account: ObjectID,
) -> Seq<RegistrationId> {
    if queues.contains_key(account) {
        queues[account]@
    } else {
        Seq::empty()
    }
}

/// Adds a registration to the lists of the given accounts.
fn list_registration(
    queues: &mut BTreeMap<ObjectID, Vec<RegistrationId>>,
    accounts: &Vec<ObjectID>,
    id: RegistrationId,
)
    requires
        accounts@.no_duplicates(),
    ensures
        final(queues)@.dom() == old(queues)@.dom().union(accounts@.to_set()),
        forall|account: ObjectID| #[trigger]
            final(queues)@.contains_key(account) ==> final(queues)@[account]@
                == if accounts@.to_set().contains(account) {
                listed_for(old(queues)@, account).push(id)
            } else {
                listed_for(old(queues)@, account)
            },
{
    let mut i: usize = 0;
    proof {
        assert(accounts@.take(0).to_set() =~= Set::<ObjectID>::empty());
        assert(queues@.dom() =~= queues@.dom().union(Set::empty()));
    }
    while i < accounts.len()
        invariant
            i <= accounts.len(),
            accounts@.no_duplicates(),
            queues@.dom() == old(queues)@.dom().union(accounts@.take(i as int).to_set()),
            forall|account: ObjectID| #[trigger]
                queues@.contains_key(account) ==> queues@[account]@ == if accounts@.take(
                    i as int,
                ).to_set().contains(account) {
                    listed_for(old(queues)@, account).push(id)
                } else {
                    listed_for(old(queues)@, account)
                },
        decreases accounts.len() - i,
    {
        let ghost so_far = queues@;
        proof {
            lemma_take_next(accounts@, i as int);
        }
        let mut list: Vec<RegistrationId> = match queues.remove(&accounts[i]) {
            Some(list) => list,
            None => Vec::new(),
        };
        list.push(id);
        queues.insert(accounts[i], list);
        assert(queues@.dom() =~= old(queues)@.dom().union(accounts@.take(i + 1).to_set()));
        i = i + 1;
    }
    assert(accounts@.take(i as int) =~= accounts@);
}

/// How far the processing of settlements has got.
#[derive(Debug)]
pub struct SettlementProgress {
    /// The transactions that have become ready.
    pub ready: BTreeSet<RegistrationId>,
    /// The settlement whose turn it is cannot be processed: an account has nothing to give back
    /// at the version that it settles, or a number would overflow.
    pub stuck: bool,
}

/// The accounts once those in `done` have been given back what they had reserved at `version`.
spec fn give_back(
    accounts: Map<ObjectID, AccountView>,
    done: Set<ObjectID>,
    version: SequenceNumber,
) -> Map<ObjectID, AccountView> {
    Map::new(
        |account: ObjectID| accounts.contains_key(account),
        |account: ObjectID|
            if done.contains(account) {
                accounts[account].settle_version(version)
            } else {
                accounts[account]
            },
    )
}

/// The accounts once the balances of those in `done` have changed.
spec fn change_balances(
    accounts: Map<ObjectID, AccountView>,
    done: Set<ObjectID>,
    settlement: SettlementView,
) -> Map<ObjectID, AccountView> {
    Map::new(
        |account: ObjectID| accounts.contains_key(account),
        |account: ObjectID|
            if done.contains(account) {
                accounts[account].settle_change(settlement.change_of(account) as int)
            } else {
                accounts[account]
            },
    )
}

} // verus!
