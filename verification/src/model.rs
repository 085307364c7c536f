//! What the scheduler holds, and what its operations make of it.
use crate::account_laws::{law_serving_stops_at_uncovered, lemma_serving_keeps_finite};
use crate::account_state::{
    lemma_reserve_all_takes_prefix, request, requests, waits_for, AccountView, Request,
};
use crate::balance_read::AccountBalanceRead;
use crate::pending::PendingView;
use crate::registration::RegistrationView;
use crate::types::{
    ObjectID, RegistrationId, ScheduleReceiver, ScheduleResult, SequenceNumber, SettlementView,
    TransactionDigest, WithdrawView,
};
use vstd::prelude::*;

verus! {

/// The contents of a scheduler.
#[verifier::ext_equal]
pub ghost struct SchedulerView {
    /// The accounts with reservations that wait or are not settled yet.
    pub accounts: Map<ObjectID, AccountView>,
    /// The transactions that wait, each with the accounts that it waits for.
    pub registrations: Map<RegistrationId, RegistrationView>,
    /// The identifier that the next registration gets.
    pub next_registration: RegistrationId,
    /// What is outstanding at each accumulator version that is not settled yet.
    pub pending: Map<SequenceNumber, PendingView>,
    /// The last settled accumulator version.
    pub last_known_settled_version: SequenceNumber,
    /// The settlements that have arrived ahead of their turn, by the version that they settle.
    pub settlements: Map<SequenceNumber, SettlementView>,
    /// The version that the settlement whose turn it is settles.
    pub expected_version: SequenceNumber,
}

impl SchedulerView {
    /// A scheduler that starts out at a settled version.
    pub open spec fn init(version: SequenceNumber) -> Self {
        SchedulerView {
            accounts: Map::empty(),
            registrations: Map::empty(),
            next_registration: 0,
            pending: Map::empty(),
            last_known_settled_version: version,
            settlements: Map::empty(),
            expected_version: version,
        }
    }

    /// A transaction stands in the queue of an account, once, exactly while it waits for it.
    pub open spec fn queues_match(self) -> bool {
        &&& forall|account: ObjectID| #[trigger]
            self.accounts.contains_key(account)
                ==> self.accounts[account].enqueued.no_duplicates()
        &&& forall|account: ObjectID, id: RegistrationId| #[trigger]
            self.is_queued(account, id) <==> self.is_pending(account, id)
    }

    /// The registration stands in the queue of the account.
    pub open spec fn is_queued(self, account: ObjectID, id: RegistrationId) -> bool {
        self.accounts.contains_key(account) && self.accounts[account].enqueued.contains(id)
    }

    /// The registration waits for the account.
    pub open spec fn is_pending(self, account: ObjectID, id: RegistrationId) -> bool {
        self.registrations.contains_key(id)
            && self.registrations[id].pending_accounts.contains_key(account)
    }

    /// Every registration waits for some account, has been told nothing yet, and has an
    /// identifier that was given out.
    pub open spec fn registrations_wait(self) -> bool {
        forall|id: RegistrationId| #[trigger]
            self.registrations.contains_key(id) ==> {
                &&& !self.registrations[id].pending_accounts.is_empty()
                &&& self.registrations[id].result == ScheduleResult::Init
                &&& id < self.next_registration
            }
    }

    /// Every account outside of `except` that is kept has something waiting or reserved.
    pub open spec fn none_idle_except(self, except: Set<ObjectID>) -> bool {
        forall|account: ObjectID| #[trigger]
            self.accounts.contains_key(account) && !except.contains(account)
                ==> !self.accounts[account].is_empty()
    }

    /// The queue of the account is empty, or has a head that must wait: the version that it depends
    /// on is not settled yet, and the guaranteed minimum balance does not cover it.
    pub open spec fn is_blocked(self, account: ObjectID, settled: SequenceNumber) -> bool {
        self.accounts[account].enqueued.len() > 0 ==> {
            let head = self.requests_of(account)[0];
            &&& head.accumulator_version > settled
            &&& head.amount > self.accounts[account].last_known_min_balance
        }
    }

    /// Every account outside of `except` has granted all that it can at the last settled version.
    pub open spec fn blocked_except(self, except: Set<ObjectID>) -> bool {
        forall|account: ObjectID| #[trigger]
            self.accounts.contains_key(account) && !except.contains(account) ==> self.is_blocked(
                account,
                self.last_known_settled_version,
            )
    }

    /// Every account has reservations at finitely many versions.
    pub open spec fn reservations_finite(self) -> bool {
        forall|account: ObjectID| #[trigger]
            self.accounts.contains_key(account)
                ==> self.accounts[account].reserved.dom().finite()
    }

    /// The settlements that wait for their turn are finitely many, each under the version that it
    /// settles.
    pub open spec fn settlements_keyed(self) -> bool {
        &&& self.settlements.dom().finite()
        &&& forall|version: SequenceNumber| #[trigger]
            self.settlements.contains_key(version)
                ==> self.settlements[version].old_accumulator_version == version
    }

    /// What holds of a scheduler before the queues of the accounts in `unserved` are served.
    pub open spec fn wf_except(self, unserved: Set<ObjectID>) -> bool {
        &&& self.queues_match()
        &&& self.registrations_wait()
        &&& self.none_idle_except(unserved)
        &&& self.blocked_except(unserved)
        &&& self.reservations_finite()
        &&& self.settlements_keyed()
    }

    /// What holds of a scheduler between two calls.
    pub open spec fn wf(self) -> bool {
        self.wf_except(Set::empty())
    }

    // Serving the queues.

    /// What the queue of an account asks of it.
    pub open spec fn requests_of(self, account: ObjectID) -> Seq<Request> {
        requests(self.registrations, account, self.accounts[account].enqueued)
    }

    /// The account once its queue has been served.
    pub open spec fn served(self, account: ObjectID, settled: SequenceNumber) -> AccountView {
        self.accounts[account].reserve_all(self.requests_of(account), settled)
    }

    /// No number overflows when the queue of the account is served.
    pub open spec fn can_serve(self, account: ObjectID, settled: SequenceNumber) -> bool {
        self.accounts.contains_key(account) ==> self.accounts[account].reserve_all_fits(
            self.requests_of(account),
            settled,
        )
    }

    /// The registrations that leave the queue of the account when it is served, in their order.
    pub open spec fn granted_queue(
        self,
        account: ObjectID,
        settled: SequenceNumber,
    ) -> Seq<RegistrationId> {
        if self.accounts.contains_key(account) {
            self.accounts[account].enqueued.take(
                self.accounts[account].granted_count(self.requests_of(account), settled) as int,
            )
        } else {
            Seq::empty()
        }
    }

    /// The registration leaves the queue of the account when that queue is served.
    pub open spec fn is_granted(
        self,
        account: ObjectID,
        id: RegistrationId,
        settled: SequenceNumber,
    ) -> bool {
        self.is_queued(account, id) && !self.served(account, settled).enqueued.contains(id)
    }

    /// The registration once the queues of the given accounts have been served.
    pub open spec fn registration_after(
        self,
        id: RegistrationId,
        accounts: Set<ObjectID>,
        settled: SequenceNumber,
    ) -> RegistrationView {
        let registration = self.registrations[id];
        let granted = Set::new(
            |account: ObjectID| accounts.contains(account) && self.is_granted(account, id, settled),
        );
        RegistrationView {
            pending_accounts: registration.pending_accounts.remove_keys(granted),
            ..registration
        }
    }

    /// The transactions that wait for nothing more once the queues of the given accounts have
    /// been served.
    pub open spec fn newly_ready(
        self,
        accounts: Set<ObjectID>,
        settled: SequenceNumber,
    ) -> Set<RegistrationId> {
        Set::new(
            |id: RegistrationId|
                self.registrations.contains_key(id) && self.registration_after(
                    id,
                    accounts,
                    settled,
                ).pending_accounts.is_empty(),
        )
    }

    /// The scheduler once the queues of the given accounts have been served. An account with
    /// nothing waiting and nothing reserved is forgotten, and so is a transaction that waits for
    /// nothing more.
    pub open spec fn serve(self, accounts: Set<ObjectID>, settled: SequenceNumber) -> Self {
        SchedulerView {
            accounts: Map::new(
                |account: ObjectID|
                    self.accounts.contains_key(account) && !(accounts.contains(account)
                        && self.served(account, settled).is_empty()),
                |account: ObjectID|
                    if accounts.contains(account) {
                        self.served(account, settled)
                    } else {
                        self.accounts[account]
                    },
            ),
            registrations: Map::new(
                |id: RegistrationId|
                    self.registrations.contains_key(id) && !self.newly_ready(
                        accounts,
                        settled,
                    ).contains(id),
                |id: RegistrationId| self.registration_after(id, accounts, settled),
            ),
            ..self
        }
    }

    // Enqueuing transactions.

    /// The transactions that have been scheduled at a version that is not settled yet.
    pub open spec fn seen_at(self, version: SequenceNumber) -> Set<TransactionDigest> {
        if self.pending.contains_key(version) {
            self.pending[version].transactions
        } else {
            Set::empty()
        }
    }

    /// The transactions of a list that have not been scheduled at this version yet.
    pub open spec fn unseen(
        self,
        version: SequenceNumber,
        withdraws: Seq<WithdrawView>,
    ) -> Seq<WithdrawView> {
        first_of(withdraws, self.seen_at(version))
    }

    /// The scheduler once it has taken note of the transactions of a list, so as not to schedule
    /// one of them at this version again, and of the accounts of those that are new.
    pub open spec fn note(self, version: SequenceNumber, withdraws: Seq<WithdrawView>) -> Self {
        SchedulerView {
            pending: self.pending.insert(
                version,
                PendingView {
                    transactions: self.seen_at(version).union(digests(withdraws).to_set()),
                    accounts: self.due_accounts(version).union(
                        accounts_touched(self.unseen(version, withdraws)),
                    ),
                },
            ),
            ..self
        }
    }

    /// The scheduler once the new transactions of a list are registered and stand at the end of
    /// the queues of their accounts, before any queue is served.
    pub open spec fn register(
        self,
        version: SequenceNumber,
        withdraws: Seq<WithdrawView>,
        balance: spec_fn(ObjectID) -> u64,
    ) -> Self {
        let unseen = self.unseen(version, withdraws);
        let first = self.next_registration;
        SchedulerView {
            registrations: add_registrations(self.registrations, first, version, unseen),
            next_registration: (first + unseen.len()) as RegistrationId,
            accounts: add_to_queues(self.accounts, first, unseen, balance),
            ..self.note(version, withdraws)
        }
    }

    /// Whether there is anything to schedule: an empty list holds nothing, and the transactions
    /// of a version before the last settled one have been executed.
    pub open spec fn has_work(
        self,
        version: SequenceNumber,
        withdraws: Seq<WithdrawView>,
    ) -> bool {
        withdraws.len() > 0 && self.last_known_settled_version <= version
    }

    /// Each transaction of a list can get an identifier of its own.
    pub open spec fn has_room(self, withdraws: Seq<WithdrawView>) -> bool {
        self.next_registration + withdraws.len() <= RegistrationId::MAX
    }

    /// Whether a list can be enqueued: there are identifiers left, and no number overflows.
    pub open spec fn can_enqueue(
        self,
        version: SequenceNumber,
        withdraws: Seq<WithdrawView>,
        balance: spec_fn(ObjectID) -> u64,
    ) -> bool {
        self.has_work(version, withdraws) ==> {
            &&& self.has_room(withdraws)
            &&& forall|account: ObjectID| #[trigger]
                accounts_touched(self.unseen(version, withdraws)).contains(account)
                    ==> self.register(version, withdraws, balance).can_serve(
                    account,
                    self.last_known_settled_version,
                )
        }
    }

    /// The scheduler once a list has been enqueued: the new transactions are registered, and the
    /// queues of their accounts are served.
    pub open spec fn enqueue(
        self,
        version: SequenceNumber,
        withdraws: Seq<WithdrawView>,
        balance: spec_fn(ObjectID) -> u64,
    ) -> Self {
        if self.has_work(version, withdraws) {
            self.register(version, withdraws, balance).serve(
                accounts_touched(self.unseen(version, withdraws)),
                self.last_known_settled_version,
            )
        } else {
            self
        }
    }

    /// The transactions that become ready when a list is enqueued: new ones, and ones that have
    /// waited in the queues of the same accounts.
    pub open spec fn ready_at_enqueue(
        self,
        version: SequenceNumber,
        withdraws: Seq<WithdrawView>,
        balance: spec_fn(ObjectID) -> u64,
    ) -> Set<RegistrationId> {
        if self.has_work(version, withdraws) {
            self.register(version, withdraws, balance).newly_ready(
                accounts_touched(self.unseen(version, withdraws)),
                self.last_known_settled_version,
            )
        } else {
            Set::empty()
        }
    }

    /// What is handed out for one of the new transactions of a list: it is ready if it waits for
    /// nothing more once the queues are served, and can be told so later if it still waits.
    pub open spec fn receiver(
        self,
        version: SequenceNumber,
        withdraws: Seq<WithdrawView>,
        balance: spec_fn(ObjectID) -> u64,
        i: int,
    ) -> ScheduleReceiver {
        let unseen = self.unseen(version, withdraws);
        let id = (self.next_registration + i) as RegistrationId;
        if self.ready_at_enqueue(version, withdraws, balance).contains(id) {
            ScheduleReceiver { result: ScheduleResult::ReadyForExecution, registration: None }
        } else if unseen[i].reservations.is_empty() {
            ScheduleReceiver { result: ScheduleResult::Init, registration: None }
        } else {
            ScheduleReceiver { result: ScheduleResult::Init, registration: Some(id) }
        }
    }

    /// What is handed out, by transaction, when a list is enqueued.
    pub open spec fn receivers(
        self,
        version: SequenceNumber,
        withdraws: Seq<WithdrawView>,
        balance: spec_fn(ObjectID) -> u64,
    ) -> Map<TransactionDigest, ScheduleReceiver> {
        if self.last_known_settled_version > version {
            Map::new(
                |digest: TransactionDigest| digests(withdraws).contains(digest),
                |digest: TransactionDigest|
                    ScheduleReceiver {
                        result: ScheduleResult::AlreadyExecuted,
                        registration: None,
                    },
            )
        } else {
            let new = digests(self.unseen(version, withdraws));
            Map::new(
                |digest: TransactionDigest| new.contains(digest),
                |digest: TransactionDigest|
                    self.receiver(version, withdraws, balance, new.index_of(digest)),
            )
        }
    }

    // Settlements.

    /// The accounts that have reservations outstanding at a version.
    pub open spec fn due_accounts(self, version: SequenceNumber) -> Set<ObjectID> {
        if self.pending.contains_key(version) {
            self.pending[version].accounts
        } else {
            Set::empty()
        }
    }

    /// The version whose reservations a settlement gives back to an account, if any.
    pub open spec fn due_version(self, settlement: SettlementView, account: ObjectID) -> Option<
        SequenceNumber,
    > {
        if self.due_accounts(settlement.old_accumulator_version).contains(account) {
            Some(settlement.old_accumulator_version)
        } else {
            None
        }
    }

    /// The accounts that a settlement touches: those whose balance it changes, and those that
    /// have reservations outstanding at the version that it settles.
    pub open spec fn touched_by(self, settlement: SettlementView) -> Set<ObjectID> {
        settlement.balance_changes.dom().union(
            self.due_accounts(settlement.old_accumulator_version),
        )
    }

    /// The scheduler once a settlement has given back the reservations at the version that it
    /// settles and has changed the balances, before any queue is served.
    pub open spec fn settle_balances(self, settlement: SettlementView) -> Self {
        SchedulerView {
            last_known_settled_version: settlement.new_accumulator_version,
            pending: self.pending.remove(settlement.old_accumulator_version),
            accounts: Map::new(
                |account: ObjectID| self.accounts.contains_key(account),
                |account: ObjectID|
                    self.accounts[account].settle(
                        self.due_version(settlement, account),
                        settlement.change_of(account) as int,
                    ),
            ),
            ..self
        }
    }

    /// The accounts in whose queues something waits.
    pub open spec fn with_queue(self) -> Set<ObjectID> {
        Set::new(
            |account: ObjectID|
                self.accounts.contains_key(account) && self.accounts[account].enqueued.len() > 0,
        )
    }

    /// The accounts that are asked again after a settlement: each one that is known, and those
    /// that the settlement touches.
    pub open spec fn asked_by(self, settlement: SettlementView) -> Set<ObjectID> {
        self.accounts.dom().union(self.touched_by(settlement))
    }

    /// The scheduler once a settlement has been processed: the balances are settled, and the
    /// queue of each account is served at the new version.
    pub open spec fn process_settlement(self, settlement: SettlementView) -> Self {
        self.settle_balances(settlement).serve(
            self.asked_by(settlement),
            settlement.new_accumulator_version,
        )
    }

    /// The transactions that a settlement makes ready.
    pub open spec fn ready_at_settlement(self, settlement: SettlementView) -> Set<RegistrationId> {
        self.settle_balances(settlement).newly_ready(
            self.asked_by(settlement),
            settlement.new_accumulator_version,
        )
    }

    /// Whether a settlement can be processed as far as `account` goes: an account that has
    /// reservations outstanding at the version that is settled has made one, and no number
    /// overflows.
    pub open spec fn can_settle_account(
        self,
        settlement: SettlementView,
        account: ObjectID,
    ) -> bool {
        if self.accounts.contains_key(account) {
            &&& self.accounts[account].settle_fits(
                self.due_version(settlement, account),
                settlement.change_of(account) as int,
            )
            &&& self.settle_balances(settlement).can_serve(
                account,
                settlement.new_accumulator_version,
            )
        } else {
            self.due_version(settlement, account) is None
        }
    }

    /// Whether a settlement can be processed.
    pub open spec fn can_settle(self, settlement: SettlementView) -> bool {
        forall|account: ObjectID| #[trigger]
            self.asked_by(settlement).contains(account) ==> self.can_settle_account(
                settlement,
                account,
            )
    }

    /// The scheduler once a settlement has arrived.
    pub open spec fn receive_settlement(self, settlement: SettlementView) -> Self {
        SchedulerView {
            settlements: self.settlements.insert(settlement.old_accumulator_version, settlement),
            ..self
        }
    }

    /// The settlement whose turn it is has arrived.
    pub open spec fn has_next_settlement(self) -> bool {
        self.settlements.contains_key(self.expected_version)
    }

    /// The settlement whose turn it is.
    pub open spec fn next_settlement(self) -> SettlementView {
        self.settlements[self.expected_version]
    }

    /// The scheduler once the settlement whose turn it is has been taken off those that have
    /// arrived.
    pub open spec fn take_settlement(self) -> Self {
        SchedulerView {
            settlements: self.settlements.remove(self.expected_version),
            expected_version: self.next_settlement().new_accumulator_version,
            ..self
        }
    }

    /// The settlement whose turn it is has arrived and cannot be processed.
    pub open spec fn is_stuck(self) -> bool {
        self.has_next_settlement() && !self.take_settlement().can_settle(self.next_settlement())
    }

    /// The settlements that have arrived are processed in turn, each at the version that the one
    /// before it has settled on, until the next one is missing or cannot be processed.
    pub open spec fn process_settlements(self) -> Self
        decreases self.settlements.len(),
        when self.settlements.dom().finite()
    {
        if self.has_next_settlement() && !self.is_stuck() {
            self.take_settlement().process_settlement(self.next_settlement()).process_settlements()
        } else {
            self
        }
    }

    /// The transactions that [`SchedulerView::process_settlements`] makes ready.
    pub open spec fn ready_at_settlements(self) -> Set<RegistrationId>
        decreases self.settlements.len(),
        when self.settlements.dom().finite()
    {
        if self.has_next_settlement() && !self.is_stuck() {
            let taken = self.take_settlement();
            let settlement = self.next_settlement();
            taken.ready_at_settlement(settlement).union(
                taken.process_settlement(settlement).ready_at_settlements(),
            )
        } else {
            Set::empty()
        }
    }
}

/// The digests of the transactions of a list.
pub open spec fn digests(withdraws: Seq<WithdrawView>) -> Seq<TransactionDigest> {
    Seq::new(withdraws.len(), |i: int| withdraws[i].tx_digest)
}

/// The transactions of a list that are new: not among those in `seen`, and not earlier in the
/// list.
pub open spec fn first_of(withdraws: Seq<WithdrawView>, seen: Set<TransactionDigest>) -> Seq<
    WithdrawView,
>
    decreases withdraws.len(),
{
    if withdraws.len() == 0 {
        Seq::empty()
    } else {
        let earlier = withdraws.drop_last();
        let withdraw = withdraws.last();
        if seen.contains(withdraw.tx_digest) || digests(earlier).contains(withdraw.tx_digest) {
            first_of(earlier, seen)
        } else {
            first_of(earlier, seen).push(withdraw)
        }
    }
}

/// The accounts that the transactions of a list withdraw from.
pub open spec fn accounts_touched(withdraws: Seq<WithdrawView>) -> Set<ObjectID> {
    Set::new(|account: ObjectID| exists|i: int| withdraws_from(withdraws, i, account))
}

/// The transaction at a place in a list withdraws from the account.
pub open spec fn withdraws_from(withdraws: Seq<WithdrawView>, i: int, account: ObjectID) -> bool {
    0 <= i < withdraws.len() && withdraws[i].reservations.contains_key(account)
}

/// The identifiers of those transactions of a list that withdraw from an account. The
/// transactions of the list are numbered from `first`.
pub open spec fn ids_for(
    withdraws: Seq<WithdrawView>,
    first: RegistrationId,
    account: ObjectID,
) -> Seq<RegistrationId>
    decreases withdraws.len(),
{
    if withdraws.len() == 0 {
        Seq::empty()
    } else {
        let earlier = ids_for(withdraws.drop_last(), first, account);
        if withdraws.last().reservations.contains_key(account) {
            earlier.push((first + withdraws.len() - 1) as RegistrationId)
        } else {
            earlier
        }
    }
}

/// The registrations with those of the transactions of a list added, numbered from `first`. A
/// transaction that withdraws from no account waits for nothing and is left out.
pub open spec fn add_registrations(
    registrations: Map<RegistrationId, RegistrationView>,
    first: RegistrationId,
    version: SequenceNumber,
    withdraws: Seq<WithdrawView>,
) -> Map<RegistrationId, RegistrationView> {
    Map::new(
        |id: RegistrationId|
            registrations.contains_key(id) || (first <= id < first + withdraws.len()
                && !withdraws[id - first].reservations.is_empty()),
        |id: RegistrationId|
            if first <= id < first + withdraws.len() {
                RegistrationView::fresh(version, withdraws[id - first].reservations)
            } else {
                registrations[id]
            },
    )
}

/// The accounts with the transactions of a list, numbered from `first`, at the end of their
/// queues. An account that was not known starts out with its balance.
pub open spec fn add_to_queues(
    accounts: Map<ObjectID, AccountView>,
    first: RegistrationId,
    withdraws: Seq<WithdrawView>,
    balance: spec_fn(ObjectID) -> u64,
) -> Map<ObjectID, AccountView> {
    Map::new(
        |account: ObjectID|
            accounts.contains_key(account) || accounts_touched(withdraws).contains(account),
        |account: ObjectID|
            {
                let known = if accounts.contains_key(account) {
                    accounts[account]
                } else {
                    AccountView::with_balance(balance(account) as int)
                };
                if accounts_touched(withdraws).contains(account) {
                    known.enqueue(ids_for(withdraws, first, account))
                } else {
                    known
                }
            },
    )
}

/// The balances of the accounts at a settled version.
pub open spec fn balances_at<B: AccountBalanceRead>(
    balance_read: &B,
    version: SequenceNumber,
) -> spec_fn(ObjectID) -> u64 {
    |account: ObjectID| balance_read.account_balance(account, version)
}

/// The registrations once those in `ids` no longer wait for `account`. One that waits for nothing
/// more is gone.
pub open spec fn release(
    registrations: Map<RegistrationId, RegistrationView>,
    account: ObjectID,
    ids: Seq<RegistrationId>,
) -> Map<RegistrationId, RegistrationView> {
    Map::new(
        |id: RegistrationId|
            registrations.contains_key(id) && !(ids.contains(id)
                && registrations[id].pending_accounts.remove(account).is_empty()),
        |id: RegistrationId|
            if ids.contains(id) {
                RegistrationView {
                    pending_accounts: registrations[id].pending_accounts.remove(account),
                    ..registrations[id]
                }
            } else {
                registrations[id]
            },
    )
}

/// The registrations in `ids` that wait for `account` alone.
pub open spec fn released(
    registrations: Map<RegistrationId, RegistrationView>,
    account: ObjectID,
    ids: Seq<RegistrationId>,
) -> Set<RegistrationId> {
    Set::new(
        |id: RegistrationId|
            ids.contains(id) && registrations[id].pending_accounts.remove(account).is_empty(),
    )
}

/// What serving the queue of one account comes to.
pub proof fn lemma_serve_one(state: SchedulerView, account: ObjectID, settled: SequenceNumber)
    requires
        state.queues_match(),
        state.registrations_wait(),
        state.accounts.contains_key(account),
    ensures
        ({
            let queue = state.accounts[account].enqueued;
            let count = state.accounts[account].granted_count(state.requests_of(account), settled);
            let served = state.served(account, settled);
            let after = state.serve(set![account], settled);
            &&& count <= queue.len()
            &&& served.enqueued == queue.skip(count as int)
            &&& after.accounts == if served.is_empty() {
                state.accounts.remove(account)
            } else {
                state.accounts.insert(account, served)
            }
            &&& after.registrations == release(
                state.registrations,
                account,
                queue.take(count as int),
            )
            &&& state.newly_ready(set![account], settled) == released(
                state.registrations,
                account,
                queue.take(count as int),
            )
        }),
{
    let queue = state.accounts[account].enqueued;
    let count = state.accounts[account].granted_count(state.requests_of(account), settled);
    let served = state.served(account, settled);
    let after = state.serve(set![account], settled);
    let ids = queue.take(count as int);
    lemma_reserve_all_takes_prefix(state.accounts[account], state.requests_of(account), settled);
    assert forall|id: RegistrationId| state.is_granted(account, id, settled) <==> ids.contains(
        id,
    ) by {
        lemma_split_at(queue, count as int, id);
    }
    assert forall|id: RegistrationId| state.registrations.contains_key(id) implies {
        let pending = state.registrations[id].pending_accounts;
        state.registration_after(id, set![account], settled).pending_accounts == if ids.contains(
            id,
        ) {
            pending.remove(account)
        } else {
            pending
        }
    } by {
        let pending = state.registrations[id].pending_accounts;
        let left = state.registration_after(id, set![account], settled).pending_accounts;
        if ids.contains(id) {
            assert(left =~= pending.remove(account));
        } else {
            assert(left =~= pending);
        }
    }
    assert forall|id: RegistrationId| ids.contains(id) implies state.registrations.contains_key(
        id,
    ) by {
        lemma_split_at(queue, count as int, id);
        assert(state.is_queued(account, id));
    }
    assert(after.accounts =~= if served.is_empty() {
        state.accounts.remove(account)
    } else {
        state.accounts.insert(account, served)
    });
    assert(state.newly_ready(set![account], settled) =~= released(
        state.registrations,
        account,
        ids,
    ));
    assert(after.registrations =~= release(state.registrations, account, ids));
}

/// Serving queues keeps queues and registrations in step, and forgets the accounts among those
/// served that have nothing waiting and nothing reserved.
pub proof fn lemma_serve_keeps_queues(
    state: SchedulerView,
    accounts: Set<ObjectID>,
    settled: SequenceNumber,
)
    requires
        state.queues_match(),
        state.registrations_wait(),
    ensures
        state.serve(accounts, settled).queues_match(),
        state.serve(accounts, settled).registrations_wait(),
        state.none_idle_except(accounts) ==> state.serve(accounts, settled).none_idle_except(
            Set::empty(),
        ),
{
    let after = state.serve(accounts, settled);
    assert forall|account: ObjectID| #[trigger] state.accounts.contains_key(account) implies {
        &&& state.served(account, settled).enqueued.no_duplicates()
        &&& forall|id: RegistrationId|
            state.served(account, settled).enqueued.contains(id) ==> state.is_queued(account, id)
    } by {
        let queue = state.accounts[account].enqueued;
        lemma_reserve_all_takes_prefix(
            state.accounts[account],
            state.requests_of(account),
            settled,
        );
        let count = state.accounts[account].granted_count(state.requests_of(account), settled);
        assert forall|id: RegistrationId|
            state.served(account, settled).enqueued.contains(id) implies state.is_queued(
            account,
            id,
        ) by {
            lemma_split_at(queue, count as int, id);
        }
    }
    assert forall|account: ObjectID, id: RegistrationId| #[trigger]
        after.is_queued(account, id) <==> after.is_pending(account, id) by {
        assert(state.is_queued(account, id) <==> state.is_pending(account, id));
        if after.is_queued(account, id) {
            assert(state.is_queued(account, id));
            assert(!(accounts.contains(account) && state.is_granted(account, id, settled)));
            let left = state.registration_after(id, accounts, settled).pending_accounts;
            assert(left.contains_key(account));
            assert(!left.is_empty());
        }
        if after.is_pending(account, id) {
            assert(state.is_pending(account, id));
            assert(!(accounts.contains(account) && state.is_granted(account, id, settled)));
        }
    }
}

/// Serving the queues of some accounts leaves those of the others, and what they ask, as they are.
pub proof fn lemma_serve_leaves_others(
    state: SchedulerView,
    accounts: Set<ObjectID>,
    other: ObjectID,
    settled: SequenceNumber,
)
    requires
        state.queues_match(),
        state.registrations_wait(),
        !accounts.contains(other),
    ensures
        ({
            let after = state.serve(accounts, settled);
            &&& after.accounts.contains_key(other) == state.accounts.contains_key(other)
            &&& state.accounts.contains_key(other) ==> {
                &&& after.accounts[other] == state.accounts[other]
                &&& after.requests_of(other) == state.requests_of(other)
            }
            &&& forall|at: SequenceNumber| #[trigger]
                after.can_serve(other, at) == state.can_serve(other, at)
            &&& forall|id: RegistrationId, at: SequenceNumber| #[trigger]
                after.is_granted(other, id, at) == state.is_granted(other, id, at)
        }),
{
    let after = state.serve(accounts, settled);
    if state.accounts.contains_key(other) {
        let queue = state.accounts[other].enqueued;
        assert forall|i: int| 0 <= i < queue.len() implies request(
            after.registrations,
            other,
            queue[i],
        ) == #[trigger] request(state.registrations, other, queue[i]) by {
            let id = queue[i];
            assert(state.is_queued(other, id));
            let left = state.registration_after(id, accounts, settled).pending_accounts;
            assert(left.contains_key(other));
            assert(!left.is_empty());
        }
        assert(after.requests_of(other) =~= state.requests_of(other));
    }
}

/// Once the queue of an account has been served, what is left of it asks what it asked before.
pub proof fn lemma_served_requests(
    state: SchedulerView,
    accounts: Set<ObjectID>,
    account: ObjectID,
    settled: SequenceNumber,
)
    requires
        state.queues_match(),
        state.registrations_wait(),
        accounts.contains(account),
        state.serve(accounts, settled).accounts.contains_key(account),
    ensures
        state.serve(accounts, settled).requests_of(account) == state.requests_of(account).skip(
            state.accounts[account].granted_count(state.requests_of(account), settled) as int,
        ),
{
    let after = state.serve(accounts, settled);
    let queue = state.accounts[account].enqueued;
    let asked = state.requests_of(account);
    let count = state.accounts[account].granted_count(asked, settled) as int;
    let left = after.accounts[account].enqueued;
    lemma_serve_keeps_queues(state, accounts, settled);
    lemma_reserve_all_takes_prefix(state.accounts[account], asked, settled);
    assert forall|i: int| 0 <= i < left.len() implies request(after.registrations, account, left[i])
        == #[trigger] asked.skip(count)[i] by {
        assert(left[i] == queue[i + count]);
        assert(after.is_queued(account, left[i]));
        assert(after.is_pending(account, left[i]));
    }
    assert(after.requests_of(account) =~= asked.skip(count));
}

/// Once the queues that were left out are served, all that holds between two calls holds.
pub proof fn lemma_serve_restores_wf(state: SchedulerView, accounts: Set<ObjectID>)
    requires
        state.wf_except(accounts),
    ensures
        state.serve(accounts, state.last_known_settled_version).wf(),
{
    let settled = state.last_known_settled_version;
    let after = state.serve(accounts, settled);
    lemma_serve_keeps_queues(state, accounts, settled);
    assert forall|account: ObjectID| #[trigger] after.accounts.contains_key(account) implies {
        &&& after.is_blocked(account, settled)
        &&& after.accounts[account].reserved.dom().finite()
    } by {
        if accounts.contains(account) {
            let before = state.accounts[account];
            let asked = state.requests_of(account);
            lemma_served_requests(state, accounts, account, settled);
            lemma_reserve_all_takes_prefix(before, asked, settled);
            lemma_serving_keeps_finite(before, asked, settled);
            if after.accounts[account].enqueued.len() > 0 {
                law_serving_stops_at_uncovered(before, asked, settled);
            }
        } else {
            lemma_serve_leaves_others(state, accounts, account, settled);
            assert(state.is_blocked(account, settled));
        }
    }
}

/// To serve more accounts makes no difference, if they have no queue.
pub proof fn lemma_serve_more(
    state: SchedulerView,
    accounts: Set<ObjectID>,
    more: Set<ObjectID>,
    settled: SequenceNumber,
)
    requires
        accounts.subset_of(more),
        forall|account: ObjectID| #[trigger]
            state.accounts.contains_key(account) && more.contains(account) && !accounts.contains(
                account,
            ) ==> {
                &&& state.accounts[account].enqueued.len() == 0
                &&& !state.accounts[account].is_empty()
            },
    ensures
        state.serve(accounts, settled) == state.serve(more, settled),
        state.newly_ready(accounts, settled) == state.newly_ready(more, settled),
{
    assert forall|id: RegistrationId| #[trigger]
        state.registration_after(id, accounts, settled) == state.registration_after(
            id,
            more,
            settled,
        ) by {
        assert(state.registration_after(id, accounts, settled).pending_accounts
            =~= state.registration_after(id, more, settled).pending_accounts);
    }
    assert(state.newly_ready(accounts, settled) =~= state.newly_ready(more, settled));
    assert(state.serve(accounts, settled).accounts =~= state.serve(more, settled).accounts);
    assert(state.serve(accounts, settled).registrations =~= state.serve(
        more,
        settled,
    ).registrations);
}

/// Something waits in the queue of an account exactly while a registration waits for it.
pub proof fn lemma_with_queue(state: SchedulerView, account: ObjectID)
    requires
        state.queues_match(),
    ensures
        state.with_queue().contains(account) <==> exists|id: RegistrationId| #[trigger]
            state.registrations.contains_key(id)
                && state.registrations[id].pending_accounts.contains_key(account),
{
    if state.with_queue().contains(account) {
        let id = state.accounts[account].enqueued[0];
        assert(state.is_queued(account, id));
        assert(state.is_pending(account, id));
        assert(state.registrations.contains_key(id));
    }
    if exists|id: RegistrationId| #[trigger]
        state.registrations.contains_key(id)
            && state.registrations[id].pending_accounts.contains_key(account) {
        let id = choose|id: RegistrationId| #[trigger]
            state.registrations.contains_key(id)
                && state.registrations[id].pending_accounts.contains_key(account);
        assert(state.is_pending(account, id));
        assert(state.is_queued(account, id));
    }
}

/// It makes no difference whether the queues of two groups of accounts are served one group after
/// the other or all at once.
pub proof fn lemma_serve_union(
    state: SchedulerView,
    first: Set<ObjectID>,
    second: Set<ObjectID>,
    settled: SequenceNumber,
)
    requires
        state.queues_match(),
        state.registrations_wait(),
        first.disjoint(second),
    ensures
        state.serve(first, settled).serve(second, settled) == state.serve(
            first.union(second),
            settled,
        ),
        state.newly_ready(first, settled).union(
            state.serve(first, settled).newly_ready(second, settled),
        ) == state.newly_ready(first.union(second), settled),
{
    let middle = state.serve(first, settled);
    let last = middle.serve(second, settled);
    let both = first.union(second);
    let whole = state.serve(both, settled);
    assert forall|account: ObjectID| #[trigger] second.contains(account) implies {
        &&& middle.accounts.contains_key(account) == state.accounts.contains_key(account)
        &&& state.accounts.contains_key(account) ==> middle.served(account, settled)
            == state.served(account, settled)
        &&& forall|id: RegistrationId| #[trigger]
            middle.is_granted(account, id, settled) == state.is_granted(account, id, settled)
    } by {
        lemma_serve_leaves_others(state, first, account, settled);
    }
    assert(last.accounts =~= whole.accounts);
    assert forall|id: RegistrationId| #[trigger] middle.registrations.contains_key(id) implies
        middle.registration_after(id, second, settled) == state.registration_after(
        id,
        both,
        settled,
    ) by {
        assert(middle.registration_after(id, second, settled).pending_accounts
            =~= state.registration_after(id, both, settled).pending_accounts);
    }
    assert forall|id: RegistrationId|
        #![trigger state.newly_ready(both, settled).contains(id)]
        state.newly_ready(first, settled).contains(id) implies state.newly_ready(
        both,
        settled,
    ).contains(id) by {
        let left = state.registration_after(id, both, settled).pending_accounts;
        let left_first = state.registration_after(id, first, settled).pending_accounts;
        assert forall|account: ObjectID| !left.contains_key(account) by {
            assert(!left_first.contains_key(account));
        }
        assert(left.dom() =~= Set::<ObjectID>::empty());
    }
    assert(state.newly_ready(first, settled).union(middle.newly_ready(second, settled))
        =~= state.newly_ready(both, settled));
    assert(last.registrations =~= whole.registrations);
}

/// One transaction more in a list touches the accounts that it withdraws from.
pub proof fn lemma_touched_push(withdraws: Seq<WithdrawView>, withdraw: WithdrawView)
    ensures
        accounts_touched(withdraws.push(withdraw)) == accounts_touched(withdraws).union(
            withdraw.reservations.dom(),
        ),
{
    let more = withdraws.push(withdraw);
    assert forall|account: ObjectID|
        accounts_touched(more).contains(account) <==> accounts_touched(withdraws).union(
            withdraw.reservations.dom(),
        ).contains(account) by {
        if accounts_touched(more).contains(account) {
            let i = choose|i: int| withdraws_from(more, i, account);
            if i < withdraws.len() {
                assert(withdraws_from(withdraws, i, account));
            }
        }
        if accounts_touched(withdraws).contains(account) {
            let i = choose|i: int| withdraws_from(withdraws, i, account);
            assert(withdraws_from(more, i, account));
        }
        if withdraw.reservations.contains_key(account) {
            assert(withdraws_from(more, withdraws.len() as int, account));
        }
    }
    assert(accounts_touched(more) =~= accounts_touched(withdraws).union(
        withdraw.reservations.dom(),
    ));
}

/// The transactions of a list that touches no account of this name have no identifier for it.
pub proof fn lemma_no_ids_for(
    withdraws: Seq<WithdrawView>,
    first: RegistrationId,
    account: ObjectID,
)
    requires
        !accounts_touched(withdraws).contains(account),
    ensures
        ids_for(withdraws, first, account) == Seq::<RegistrationId>::empty(),
    decreases withdraws.len(),
{
    if withdraws.len() > 0 {
        assert(!withdraws_from(withdraws, withdraws.len() - 1, account));
        lemma_touched_push(withdraws.drop_last(), withdraws.last());
        assert(withdraws.drop_last().push(withdraws.last()) =~= withdraws);
        lemma_no_ids_for(withdraws.drop_last(), first, account);
    }
}

/// The identifiers for an account are those of the transactions that withdraw from it, each once.
pub proof fn lemma_ids_for(withdraws: Seq<WithdrawView>, first: RegistrationId, account: ObjectID)
    requires
        first + withdraws.len() <= RegistrationId::MAX,
    ensures
        ids_for(withdraws, first, account).no_duplicates(),
        forall|id: RegistrationId| #[trigger]
            ids_for(withdraws, first, account).contains(id) <==> first <= id && withdraws_from(
                withdraws,
                id - first,
                account,
            ),
    decreases withdraws.len(),
{
    if withdraws.len() > 0 {
        let earlier = withdraws.drop_last();
        let ids = ids_for(earlier, first, account);
        let last = (first + withdraws.len() - 1) as RegistrationId;
        lemma_ids_for(earlier, first, account);
        assert(!withdraws_from(earlier, last - first, account));
        assert(!ids.contains(last));
        assert forall|id: RegistrationId| #[trigger]
            ids_for(withdraws, first, account).contains(id) <==> first <= id && withdraws_from(
                withdraws,
                id - first,
                account,
            ) by {
            assert(ids.contains(id) <==> first <= id && withdraws_from(
                earlier,
                id - first,
                account,
            ));
            if withdraws.last().reservations.contains_key(account) {
                let more = ids.push(last);
                if ids.contains(id) {
                    assert(more[ids.index_of(id)] == id);
                }
                assert(more[ids.len() as int] == last);
                if more.contains(id) && id != last {
                    assert(ids[more.index_of(id)] == id);
                }
            }
        }
    }
}

/// The new transactions of a list are distinct, and each is in the list.
pub proof fn lemma_first_of_distinct(withdraws: Seq<WithdrawView>, seen: Set<TransactionDigest>)
    ensures
        first_of(withdraws, seen).len() <= withdraws.len(),
        digests(first_of(withdraws, seen)).no_duplicates(),
        forall|digest: TransactionDigest| #[trigger]
            digests(first_of(withdraws, seen)).contains(digest) <==> !seen.contains(digest)
                && digests(withdraws).contains(digest),
    decreases withdraws.len(),
{
    if withdraws.len() > 0 {
        let earlier = withdraws.drop_last();
        let withdraw = withdraws.last();
        lemma_first_of_distinct(earlier, seen);
        let so_far = first_of(earlier, seen);
        assert(digests(withdraws) =~= digests(earlier).push(withdraw.tx_digest));
        assert(digests(so_far.push(withdraw)) =~= digests(so_far).push(withdraw.tx_digest));
        assert forall|digest: TransactionDigest| #[trigger]
            digests(first_of(withdraws, seen)).contains(digest) <==> !seen.contains(digest)
                && digests(withdraws).contains(digest) by {
            lemma_push_contains(digests(earlier), withdraw.tx_digest, digest);
            lemma_push_contains(digests(so_far), withdraw.tx_digest, digest);
            assert(digests(so_far).contains(digest) <==> !seen.contains(digest) && digests(
                earlier,
            ).contains(digest));
        }
        assert(digests(so_far).contains(withdraw.tx_digest) ==> digests(earlier).contains(
            withdraw.tx_digest,
        ));
    }
}

/// What a sequence contains with one element more.
proof fn lemma_push_contains<T>(s: Seq<T>, x: T, y: T)
    ensures
        s.push(x).contains(y) <==> s.contains(y) || x == y,
{
    if s.contains(y) {
        assert(s.push(x)[s.index_of(y)] == y);
    }
    assert(s.push(x)[s.len() as int] == x);
    if s.push(x).contains(y) && x != y {
        assert(s[s.push(x).index_of(y)] == y);
    }
}

/// Registering transactions keeps queues and registrations in step, and leaves the queues of
/// their accounts to be served.
pub proof fn lemma_register_keeps_wf(
    state: SchedulerView,
    version: SequenceNumber,
    withdraws: Seq<WithdrawView>,
    balance: spec_fn(ObjectID) -> u64,
)
    requires
        state.wf(),
        state.has_room(withdraws),
    ensures
        state.register(version, withdraws, balance).wf_except(
            accounts_touched(state.unseen(version, withdraws)),
        ),
{
    let after = state.register(version, withdraws, balance);
    let unseen = state.unseen(version, withdraws);
    let first = state.next_registration;
    let touched = accounts_touched(unseen);
    lemma_first_of_distinct(withdraws, state.seen_at(version));
    assert forall|account: ObjectID, id: RegistrationId| #[trigger]
        after.is_queued(account, id) <==> after.is_pending(account, id) by {
        lemma_ids_for(unseen, first, account);
        let ids = ids_for(unseen, first, account);
        assert(state.is_queued(account, id) <==> state.is_pending(account, id));
        assert(ids.contains(id) <==> first <= id && withdraws_from(unseen, id - first, account));
        if withdraws_from(unseen, id - first, account) {
            assert(touched.contains(account));
            assert(!unseen[id - first].reservations.is_empty());
        }
        if touched.contains(account) {
            let known = if state.accounts.contains_key(account) {
                state.accounts[account].enqueued
            } else {
                Seq::empty()
            };
            lemma_add_contains(known, ids, id);
        }
    }
    assert forall|account: ObjectID| #[trigger] after.accounts.contains_key(account) implies {
        &&& after.accounts[account].enqueued.no_duplicates()
        &&& !after.accounts[account].is_empty()
        &&& !touched.contains(account) ==> after.is_blocked(
            account,
            after.last_known_settled_version,
        )
    } by {
        if touched.contains(account) {
            lemma_ids_for(unseen, first, account);
            let ids = ids_for(unseen, first, account);
            let i = choose|i: int| withdraws_from(unseen, i, account);
            let id = (first + i) as RegistrationId;
            assert(ids.contains(id));
            if state.accounts.contains_key(account) {
                let queue = state.accounts[account].enqueued;
                assert forall|j: int, k: int|
                    0 <= j < queue.len() && 0 <= k < ids.len() implies queue[j] != ids[k] by {
                    assert(ids.contains(ids[k]));
                    assert(state.is_queued(account, queue[j]));
                    assert(state.is_pending(account, queue[j]));
                }
            }
        } else {
            let queue = state.accounts[account].enqueued;
            assert(state.is_blocked(account, state.last_known_settled_version));
            if queue.len() > 0 {
                assert(state.is_queued(account, queue[0]));
                assert(state.is_pending(account, queue[0]));
            }
        }
    }
}

/// What two sequences contain one behind the other.
proof fn lemma_add_contains<T>(s: Seq<T>, t: Seq<T>, x: T)
    ensures
        (s + t).contains(x) <==> s.contains(x) || t.contains(x),
{
    if s.contains(x) {
        assert((s + t)[s.index_of(x)] == x);
    }
    if t.contains(x) {
        assert((s + t)[s.len() + t.index_of(x)] == x);
    }
    if (s + t).contains(x) {
        let i = (s + t).index_of(x);
        if i < s.len() {
            assert(s[i] == x);
        } else {
            assert(t[i - s.len()] == x);
        }
    }
}

/// Settlements that come and go leave queues and registrations in step.
pub proof fn lemma_wf_keeps(before: SchedulerView, after: SchedulerView)
    requires
        before.wf(),
        after.accounts == before.accounts,
        after.registrations == before.registrations,
        after.next_registration == before.next_registration,
        after.last_known_settled_version == before.last_known_settled_version,
        after.settlements_keyed(),
    ensures
        after.wf(),
{
    assert forall|account: ObjectID| #[trigger]
        after.accounts.contains_key(account) implies after.is_blocked(
        account,
        after.last_known_settled_version,
    ) by {
        assert(before.is_blocked(account, before.last_known_settled_version));
    }
    assert forall|account: ObjectID, id: RegistrationId| #[trigger]
        after.is_queued(account, id) <==> after.is_pending(account, id) by {
        assert(before.is_queued(account, id) <==> before.is_pending(account, id));
    }
}

/// The same queues and registrations are in step wherever they stand.
pub proof fn lemma_same_queues(before: SchedulerView, after: SchedulerView)
    requires
        before.queues_match(),
        after.accounts == before.accounts,
        after.registrations == before.registrations,
    ensures
        after.queues_match(),
{
    assert forall|account: ObjectID, id: RegistrationId| #[trigger]
        after.is_queued(account, id) <==> after.is_pending(account, id) by {
        assert(before.is_queued(account, id) <==> before.is_pending(account, id));
    }
}

/// Where no queue is served nothing changes.
pub proof fn lemma_serve_none(state: SchedulerView, settled: SequenceNumber)
    requires
        state.registrations_wait(),
    ensures
        state.serve(Set::empty(), settled) == state,
        state.newly_ready(Set::empty(), settled) == Set::<RegistrationId>::empty(),
{
    let none = Set::<ObjectID>::empty();
    let after = state.serve(none, settled);
    assert forall|id: RegistrationId| state.registrations.contains_key(id) implies
        #[trigger] state.registration_after(id, none, settled) == state.registrations[id] by {
        assert(state.registration_after(id, none, settled).pending_accounts
            =~= state.registrations[id].pending_accounts);
    }
    assert(state.newly_ready(none, settled) =~= Set::<RegistrationId>::empty());
    assert(after.accounts =~= state.accounts);
    assert(after.registrations =~= state.registrations);
}

/// Settling balances leaves queues and registrations alone, and the queues to be served.
pub proof fn lemma_settle_balances_keeps_wf(state: SchedulerView, settlement: SettlementView)
    requires
        state.wf(),
    ensures
        state.settle_balances(settlement).wf_except(state.asked_by(settlement)),
{
    let after = state.settle_balances(settlement);
    assert forall|account: ObjectID, id: RegistrationId| #[trigger]
        after.is_queued(account, id) <==> after.is_pending(account, id) by {
        assert(state.is_queued(account, id) <==> state.is_pending(account, id));
    }
    assert forall|account: ObjectID| #[trigger]
        after.accounts.contains_key(account) implies after.accounts[account].reserved.dom().finite()
    by {
        let reserved = state.accounts[account].reserved;
        if let Some(version) = state.due_version(settlement, account) {
            assert(reserved.remove(version).dom() =~= reserved.dom().remove(version));
        }
    }
}

/// Where an account is not known there is no queue to serve.
pub proof fn lemma_serve_absent(state: SchedulerView, account: ObjectID, settled: SequenceNumber)
    requires
        state.registrations_wait(),
        !state.accounts.contains_key(account),
    ensures
        state.serve(set![account], settled) == state,
        state.newly_ready(set![account], settled) == Set::<RegistrationId>::empty(),
{
    let after = state.serve(set![account], settled);
    assert forall|id: RegistrationId| state.registrations.contains_key(id) implies
        #[trigger] state.registration_after(id, set![account], settled) == state.registrations[id]
    by {
        assert(state.registration_after(id, set![account], settled).pending_accounts
            =~= state.registrations[id].pending_accounts);
    }
    assert(state.newly_ready(set![account], settled) =~= Set::<RegistrationId>::empty());
    assert(after.accounts =~= state.accounts);
    assert(after.registrations =~= state.registrations);
}

/// While the head of a queue is served, the registrations behind it stay as they are.
pub proof fn lemma_release_keeps(state: SchedulerView, account: ObjectID, count: int)
    requires
        state.queues_match(),
        state.registrations_wait(),
        state.accounts.contains_key(account),
        0 <= count < state.accounts[account].enqueued.len(),
    ensures
        ({
            let queue = state.accounts[account].enqueued;
            let left = release(state.registrations, account, queue.take(count));
            let id = queue[count];
            &&& state.registrations.contains_key(id)
            &&& left.contains_key(id)
            &&& left[id] == state.registrations[id]
            &&& waits_for(left, account, id)
            &&& request(left, account, id) == state.requests_of(account)[count]
        }),
{
    let queue = state.accounts[account].enqueued;
    let id = queue[count];
    assert(queue.skip(count)[0] == id);
    lemma_split_at(queue, count, id);
    assert(state.is_queued(account, id));
}

/// Serving one more registration of a queue.
pub proof fn lemma_release_next(state: SchedulerView, account: ObjectID, count: int)
    requires
        state.queues_match(),
        state.registrations_wait(),
        state.accounts.contains_key(account),
        0 <= count < state.accounts[account].enqueued.len(),
    ensures
        ({
            let queue = state.accounts[account].enqueued;
            let before = release(state.registrations, account, queue.take(count));
            let after = release(state.registrations, account, queue.take(count + 1));
            let id = queue[count];
            let told = before[id].account_ready(account);
            if told.result == ScheduleResult::ReadyForExecution {
                &&& after == before.insert(id, told).remove(id)
                &&& released(state.registrations, account, queue.take(count + 1)) == released(
                    state.registrations,
                    account,
                    queue.take(count),
                ).insert(id)
            } else {
                &&& after == before.insert(id, told)
                &&& released(state.registrations, account, queue.take(count + 1)) == released(
                    state.registrations,
                    account,
                    queue.take(count),
                )
            }
        }),
{
    lemma_release_keeps(state, account, count);
    let queue = state.accounts[account].enqueued;
    let before = release(state.registrations, account, queue.take(count));
    let after = release(state.registrations, account, queue.take(count + 1));
    let id = queue[count];
    let told = before[id].account_ready(account);
    assert(queue.take(count + 1) =~= queue.take(count).push(id));
    assert forall|other: RegistrationId|
        queue.take(count + 1).contains(other) <==> queue.take(count).contains(other) || other
            == id by {
        let more = queue.take(count + 1);
        if queue.take(count).contains(other) {
            let i = queue.take(count).index_of(other);
            assert(more[i] == other);
        }
        assert(more[count] == id);
        if more.contains(other) && other != id {
            let i = more.index_of(other);
            assert(queue.take(count)[i] == other);
        }
    }
    if told.result == ScheduleResult::ReadyForExecution {
        assert(after =~= before.insert(id, told).remove(id));
        assert(released(state.registrations, account, queue.take(count + 1)) =~= released(
            state.registrations,
            account,
            queue.take(count),
        ).insert(id));
    } else {
        assert(after =~= before.insert(id, told));
        assert(released(state.registrations, account, queue.take(count + 1)) =~= released(
            state.registrations,
            account,
            queue.take(count),
        ));
    }
}

/// Where a sequence without duplicates is cut in two, each of its elements is in one part only.
proof fn lemma_split_at<T>(s: Seq<T>, at: int, x: T)
    requires
        s.no_duplicates(),
        0 <= at <= s.len(),
    ensures
        s.contains(x) <==> s.take(at).contains(x) || s.skip(at).contains(x),
        !(s.take(at).contains(x) && s.skip(at).contains(x)),
{
    if s.contains(x) {
        let i = s.index_of(x);
        if i < at {
            assert(s.take(at)[i] == x);
        } else {
            assert(s.skip(at)[i - at] == x);
        }
    }
    if s.take(at).contains(x) {
        let i = s.take(at).index_of(x);
        assert(s[i] == x);
    }
    if s.skip(at).contains(x) {
        let i = s.skip(at).index_of(x);
        assert(s[i + at] == x);
    }
}

} // verus!
