//! What holds of a scheduler, whatever is enqueued and settled.
use crate::account_laws::{
    is_secured, law_granted_ahead_is_covered, law_granted_when_secured,
    law_later_version_grants_no_fewer, law_serving_again_changes_nothing,
    law_settled_head_is_granted,
};
use crate::account_state::lemma_reserve_all_takes_prefix;
use crate::model::{
    accounts_touched, digests, ids_for, lemma_first_of_distinct, lemma_ids_for,
    lemma_register_keeps_wf, lemma_serve_keeps_queues, lemma_serve_none, lemma_serve_restores_wf,
    lemma_served_requests, lemma_settle_balances_keeps_wf, withdraws_from, SchedulerView,
};
use crate::types::{
    ObjectID, RegistrationId, ScheduleReceiver, ScheduleResult, SequenceNumber, SettlementView,
    TransactionDigest, WithdrawView,
};
use vstd::prelude::*;

verus! {

// Which transactions are scheduled.

/// The transactions of a list are noted at its version, besides those that were, and at no other.
pub proof fn law_enqueued_transactions_are_noted(
    state: SchedulerView,
    version: SequenceNumber,
    withdraws: Seq<WithdrawView>,
    balance: spec_fn(ObjectID) -> u64,
    at: SequenceNumber,
)
    requires
        state.has_work(version, withdraws),
    ensures
        state.enqueue(version, withdraws, balance).seen_at(at) == if at == version {
            state.seen_at(at).union(digests(withdraws).to_set())
        } else {
            state.seen_at(at)
        },
{
}

/// Transactions that have been scheduled at a version are not scheduled there again: to enqueue
/// them, in whatever list, hands out nothing and changes nothing.
pub proof fn law_noted_transactions_are_not_scheduled(
    state: SchedulerView,
    version: SequenceNumber,
    withdraws: Seq<WithdrawView>,
    balance: spec_fn(ObjectID) -> u64,
)
    requires
        state.wf(),
        state.last_known_settled_version <= version,
        forall|digest: TransactionDigest| #[trigger]
            digests(withdraws).contains(digest) ==> state.seen_at(version).contains(digest),
    ensures
        state.receivers(version, withdraws, balance).is_empty(),
        state.ready_at_enqueue(version, withdraws, balance).is_empty(),
        state.enqueue(version, withdraws, balance) == state,
{
    let seen = state.seen_at(version);
    lemma_first_of_distinct(withdraws, seen);
    let unseen = state.unseen(version, withdraws);
    if unseen.len() > 0 {
        assert(digests(unseen)[0] == unseen[0].tx_digest);
        assert(digests(unseen).contains(unseen[0].tx_digest));
        assert(seen.contains(unseen[0].tx_digest));
    }
    assert(state.receivers(version, withdraws, balance) =~= Map::empty());
    if withdraws.len() > 0 {
        let again = state.register(version, withdraws, balance);
        assert(digests(withdraws)[0] == withdraws[0].tx_digest);
        assert(digests(withdraws).contains(withdraws[0].tx_digest));
        assert(accounts_touched(unseen) =~= Set::empty());
        assert(again.registrations =~= state.registrations);
        assert(again.accounts =~= state.accounts);
        assert(seen.union(digests(withdraws).to_set()) =~= seen);
        assert(state.due_accounts(version).union(Set::empty()) =~= state.due_accounts(version));
        assert(again.pending =~= state.pending);
        assert(again == state);
        lemma_serve_none(state, state.last_known_settled_version);
    }
}

/// A transaction is scheduled once: to enqueue transactions at a version again, in whatever list,
/// hands out nothing and changes nothing.
pub proof fn law_enqueuing_again_changes_nothing(
    state: SchedulerView,
    version: SequenceNumber,
    withdraws: Seq<WithdrawView>,
    balance: spec_fn(ObjectID) -> u64,
    again: Seq<WithdrawView>,
    later_balance: spec_fn(ObjectID) -> u64,
)
    requires
        state.wf(),
        state.last_known_settled_version <= version,
        state.has_room(withdraws),
        forall|digest: TransactionDigest| #[trigger]
            digests(again).contains(digest) ==> digests(withdraws).contains(digest),
    ensures
        ({
            let after = state.enqueue(version, withdraws, balance);
            &&& after.receivers(version, again, later_balance).is_empty()
            &&& after.ready_at_enqueue(version, again, later_balance).is_empty()
            &&& after.enqueue(version, again, later_balance) == after
        }),
{
    let after = state.enqueue(version, withdraws, balance);
    if state.has_work(version, withdraws) {
        lemma_register_keeps_wf(state, version, withdraws, balance);
        lemma_serve_restores_wf(
            state.register(version, withdraws, balance),
            accounts_touched(state.unseen(version, withdraws)),
        );
        law_enqueued_transactions_are_noted(state, version, withdraws, balance, version);
    }
    law_noted_transactions_are_not_scheduled(after, version, again, later_balance);
}

/// The transactions of a version before the last settled one have been executed: each is told so,
/// and nothing else happens.
pub proof fn law_executed_transactions_are_told(
    state: SchedulerView,
    version: SequenceNumber,
    withdraws: Seq<WithdrawView>,
    balance: spec_fn(ObjectID) -> u64,
)
    requires
        version < state.last_known_settled_version,
    ensures
        state.enqueue(version, withdraws, balance) == state,
        state.receivers(version, withdraws, balance).dom() == digests(withdraws).to_set(),
        forall|digest: TransactionDigest| #[trigger]
            digests(withdraws).contains(digest) ==> state.receivers(
                version,
                withdraws,
                balance,
            )[digest] == (ScheduleReceiver {
                result: ScheduleResult::AlreadyExecuted,
                registration: None,
            }),
{
    assert(state.receivers(version, withdraws, balance).dom() =~= digests(withdraws).to_set());
}

/// The transactions that are handed out when a list is enqueued are those of the list that have
/// not been scheduled at its version before.
pub proof fn law_new_transactions_are_handed_out(
    state: SchedulerView,
    version: SequenceNumber,
    withdraws: Seq<WithdrawView>,
    balance: spec_fn(ObjectID) -> u64,
)
    requires
        state.last_known_settled_version <= version,
    ensures
        state.receivers(version, withdraws, balance).dom() == digests(
            withdraws,
        ).to_set().difference(state.seen_at(version)),
{
    lemma_first_of_distinct(withdraws, state.seen_at(version));
    assert(state.receivers(version, withdraws, balance).dom() =~= digests(
        withdraws,
    ).to_set().difference(state.seen_at(version)));
}

// When a transaction is ready.

/// A transaction is ready once each account that it waits for has been served and has granted it.
pub proof fn law_ready_when_every_account_grants(
    state: SchedulerView,
    accounts: Set<ObjectID>,
    settled: SequenceNumber,
    id: RegistrationId,
)
    requires
        state.registrations.contains_key(id),
    ensures
        state.newly_ready(accounts, settled).contains(id) <==> (forall|account: ObjectID|
            #[trigger] state.registrations[id].pending_accounts.contains_key(account) ==> {
                &&& accounts.contains(account)
                &&& state.is_granted(account, id, settled)
            }),
{
    let pending = state.registrations[id].pending_accounts;
    let left = state.registration_after(id, accounts, settled).pending_accounts;
    assert forall|account: ObjectID| #[trigger]
        pending.contains_key(account) && accounts.contains(account) && state.is_granted(
            account,
            id,
            settled,
        ) implies !left.contains_key(account) by {}
    if state.newly_ready(accounts, settled).contains(id) {
        assert forall|account: ObjectID| #[trigger] pending.contains_key(account) implies {
            &&& accounts.contains(account)
            &&& state.is_granted(account, id, settled)
        } by {
            assert(!left.contains_key(account));
        }
    }
    if forall|account: ObjectID| #[trigger]
        pending.contains_key(account) ==> accounts.contains(account) && state.is_granted(
            account,
            id,
            settled,
        ) {
        assert(left.dom() =~= Set::empty());
    }
}

/// A transaction that becomes ready is secured in every account that it waited for: the version
/// that it depends on is settled, or the guaranteed minimum balance of the account covers it
/// together with all the transactions ahead of it in the queue.
pub proof fn law_ready_transactions_are_secured(
    state: SchedulerView,
    accounts: Set<ObjectID>,
    settled: SequenceNumber,
    id: RegistrationId,
    account: ObjectID,
)
    requires
        state.queues_match(),
        state.newly_ready(accounts, settled).contains(id),
        state.registrations[id].pending_accounts.contains_key(account),
    ensures
        state.is_queued(account, id),
        is_secured(
            state.accounts[account],
            state.requests_of(account),
            settled,
            state.accounts[account].enqueued.index_of(id),
        ),
{
    law_ready_when_every_account_grants(state, accounts, settled, id);
    assert(state.is_granted(account, id, settled));
    let queue = state.accounts[account].enqueued;
    let asked = state.requests_of(account);
    let count = state.accounts[account].granted_count(asked, settled) as int;
    let i = queue.index_of(id);
    lemma_reserve_all_takes_prefix(state.accounts[account], asked, settled);
    if i >= count {
        assert(state.served(account, settled).enqueued[i - count] == id);
    }
    law_granted_when_secured(state.accounts[account], asked, settled, i);
    assert(is_secured(state.accounts[account], asked, settled, i));
}

/// An account grants its requests in the order of its queue: none overtakes one ahead of it.
pub proof fn law_first_come_first_served(
    state: SchedulerView,
    account: ObjectID,
    settled: SequenceNumber,
    earlier: int,
    later: int,
)
    requires
        state.queues_match(),
        state.accounts.contains_key(account),
        0 <= earlier < later < state.accounts[account].enqueued.len(),
        state.is_granted(account, state.accounts[account].enqueued[later], settled),
    ensures
        state.is_granted(account, state.accounts[account].enqueued[earlier], settled),
{
    let queue = state.accounts[account].enqueued;
    let left = state.served(account, settled).enqueued;
    let count = state.accounts[account].granted_count(state.requests_of(account), settled) as int;
    lemma_reserve_all_takes_prefix(state.accounts[account], state.requests_of(account), settled);
    if later >= count {
        assert(left[later - count] == queue[later]);
    }
    if left.contains(queue[earlier]) {
        let k = left.index_of(queue[earlier]);
        assert(queue[k + count] == queue[earlier]);
    }
}

/// The transaction, and those ahead of it in the queue of the account, depend on versions that
/// are settled.
pub open spec fn settled_up_to(
    state: SchedulerView,
    account: ObjectID,
    id: RegistrationId,
    settled: SequenceNumber,
) -> bool {
    forall|i: int|
        0 <= i <= state.accounts[account].enqueued.index_of(id) ==> (
        #[trigger] state.requests_of(account)[i]).accumulator_version <= settled
}

/// Once the version that a transaction depends on is settled, the transaction is ready as soon as
/// its accounts are served, whatever their balances are, unless one ahead of it in a queue waits
/// for a later version.
pub proof fn law_settled_transactions_are_ready(
    state: SchedulerView,
    accounts: Set<ObjectID>,
    settled: SequenceNumber,
    id: RegistrationId,
)
    requires
        state.queues_match(),
        state.registrations.contains_key(id),
        forall|account: ObjectID| #[trigger]
            state.registrations[id].pending_accounts.contains_key(account) ==> {
                &&& accounts.contains(account)
                &&& settled_up_to(state, account, id, settled)
            },
    ensures
        state.newly_ready(accounts, settled).contains(id),
{
    law_ready_when_every_account_grants(state, accounts, settled, id);
    assert forall|account: ObjectID| #[trigger]
        state.registrations[id].pending_accounts.contains_key(account) implies state.is_granted(
        account,
        id,
        settled,
    ) by {
        assert(state.is_pending(account, id));
        assert(state.is_queued(account, id));
        let queue = state.accounts[account].enqueued;
        let asked = state.requests_of(account);
        let at = queue.index_of(id);
        lemma_reserve_all_takes_prefix(state.accounts[account], asked, settled);
        law_settled_head_is_granted(state.accounts[account], asked, settled, at + 1);
        let count = state.accounts[account].granted_count(asked, settled) as int;
        let left = state.served(account, settled).enqueued;
        if left.contains(id) {
            let k = left.index_of(id);
            assert(queue[k + count] == id);
        }
    }
}

/// A settlement makes a transaction ready that depends on the version that it settles on or an
/// earlier one, whatever the balances are, unless one ahead of it in a queue waits for a later
/// version.
pub proof fn law_settlement_makes_ready(
    state: SchedulerView,
    settlement: SettlementView,
    id: RegistrationId,
)
    requires
        state.wf(),
        state.registrations.contains_key(id),
        forall|account: ObjectID| #[trigger]
            state.registrations[id].pending_accounts.contains_key(account) ==> settled_up_to(
                state,
                account,
                id,
                settlement.new_accumulator_version,
            ),
    ensures
        state.ready_at_settlement(settlement).contains(id),
{
    let middle = state.settle_balances(settlement);
    lemma_settle_balances_keeps_wf(state, settlement);
    assert forall|account: ObjectID| #[trigger]
        middle.registrations[id].pending_accounts.contains_key(account) implies {
        &&& state.asked_by(settlement).contains(account)
        &&& settled_up_to(middle, account, id, settlement.new_accumulator_version)
    } by {
        assert(state.is_pending(account, id));
        assert(state.is_queued(account, id));
        assert(middle.requests_of(account) =~= state.requests_of(account));
    }
    law_settled_transactions_are_ready(
        middle,
        state.asked_by(settlement),
        settlement.new_accumulator_version,
        id,
    );
}

/// After a settlement every account that is kept has granted all that it can: its queue is empty,
/// or has a head whose version is beyond the settled one and whose amount the guaranteed minimum
/// balance does not cover.
pub proof fn law_settlement_leaves_nothing_to_grant(
    state: SchedulerView,
    settlement: SettlementView,
    account: ObjectID,
)
    requires
        state.wf(),
        state.process_settlement(settlement).accounts.contains_key(account),
    ensures
        ({
            let after = state.process_settlement(settlement);
            let left = after.accounts[account];
            left.enqueued.len() > 0 ==> {
                let head = after.requests_of(account)[0];
                &&& head.accumulator_version > settlement.new_accumulator_version
                &&& head.amount > left.last_known_min_balance
            }
        }),
        state.process_settlement(settlement).wf(),
{
    let after = state.process_settlement(settlement);
    lemma_settle_balances_keeps_wf(state, settlement);
    lemma_serve_restores_wf(state.settle_balances(settlement), state.asked_by(settlement));
    assert(after.is_blocked(account, settlement.new_accumulator_version));
}

/// At a later settled version an account grants what it would at an earlier one, and perhaps more
/// behind it.
pub proof fn law_later_version_grants_more(
    state: SchedulerView,
    account: ObjectID,
    earlier: SequenceNumber,
    later: SequenceNumber,
)
    requires
        earlier <= later,
    ensures
        state.granted_queue(account, earlier).is_prefix_of(state.granted_queue(account, later)),
{
    if state.accounts.contains_key(account) {
        law_later_version_grants_no_fewer(
            state.accounts[account],
            state.requests_of(account),
            earlier,
            later,
        );
    }
}

/// As long as no request in the queue of an account depends on a settled version, serving it does
/// not take its guaranteed minimum balance below zero.
pub proof fn law_served_ahead_is_covered(
    state: SchedulerView,
    accounts: Set<ObjectID>,
    settled: SequenceNumber,
    account: ObjectID,
)
    requires
        state.accounts.contains_key(account),
        state.accounts[account].last_known_min_balance >= 0,
        forall|i: int|
            0 <= i < state.requests_of(account).len() ==> (
            #[trigger] state.requests_of(account)[i]).accumulator_version > settled,
    ensures
        ({
            let after = state.serve(accounts, settled);
            after.accounts.contains_key(account) ==> after.accounts[account].last_known_min_balance
                >= 0
        }),
{
    law_granted_ahead_is_covered(state.accounts[account], state.requests_of(account), settled);
}

/// A transaction that is enqueued at the last settled version is ready at once, whatever the
/// balances are, unless one that is queued ahead of it waits for a later version.
pub proof fn law_enqueued_at_settled_version_is_ready(
    state: SchedulerView,
    withdraws: Seq<WithdrawView>,
    balance: spec_fn(ObjectID) -> u64,
    i: int,
)
    requires
        state.wf(),
        state.has_room(withdraws),
        0 <= i < state.unseen(state.last_known_settled_version, withdraws).len(),
        !state.unseen(state.last_known_settled_version, withdraws)[i].reservations.is_empty(),
        forall|account: ObjectID, k: int|
            state.unseen(
                state.last_known_settled_version,
                withdraws,
            )[i].reservations.contains_key(account) && state.accounts.contains_key(account) && 0
                <= k < state.accounts[account].enqueued.len() ==> (
            #[trigger] state.requests_of(account)[k]).accumulator_version
                <= state.last_known_settled_version,
    ensures
        state.receiver(state.last_known_settled_version, withdraws, balance, i) == (
        ScheduleReceiver { result: ScheduleResult::ReadyForExecution, registration: None }),
{
    let settled = state.last_known_settled_version;
    let unseen = state.unseen(settled, withdraws);
    let first = state.next_registration;
    let id = (first + i) as RegistrationId;
    let registered = state.register(settled, withdraws, balance);
    lemma_first_of_distinct(withdraws, state.seen_at(settled));
    lemma_register_keeps_wf(state, settled, withdraws, balance);
    assert forall|account: ObjectID| #[trigger]
        registered.registrations[id].pending_accounts.contains_key(account) implies {
        &&& accounts_touched(unseen).contains(account)
        &&& settled_up_to(registered, account, id, settled)
    } by {
        assert(withdraws_from(unseen, i, account));
        let ids = ids_for(unseen, first, account);
        lemma_ids_for(unseen, first, account);
        let queue = registered.accounts[account].enqueued;
        assert(registered.is_pending(account, id));
        assert(registered.is_queued(account, id));
        let known = if state.accounts.contains_key(account) {
            state.accounts[account].enqueued
        } else {
            Seq::empty()
        };
        assert(queue =~= known + ids);
        assert forall|k: int| 0 <= k <= queue.index_of(id) implies (
        #[trigger] registered.requests_of(account)[k]).accumulator_version <= settled by {
            if k < known.len() {
                assert(state.is_queued(account, known[k]));
                assert(state.is_pending(account, known[k]));
                assert(state.requests_of(account)[k].accumulator_version <= settled);
            } else {
                assert(ids.contains(ids[k - known.len()]));
                assert(queue[k] == ids[k - known.len()]);
                assert(registered.is_queued(account, queue[k]));
                assert(registered.is_pending(account, queue[k]));
            }
        }
    }
    law_settled_transactions_are_ready(registered, accounts_touched(unseen), settled, id);
}

// What stays as it is.

/// Once queues have been served, serving them again at the same version changes nothing.
pub proof fn law_serving_queues_again_changes_nothing(
    state: SchedulerView,
    accounts: Set<ObjectID>,
    settled: SequenceNumber,
)
    requires
        state.queues_match(),
        state.registrations_wait(),
    ensures
        ({
            let after = state.serve(accounts, settled);
            &&& after.serve(accounts, settled) == after
            &&& after.newly_ready(accounts, settled).is_empty()
            &&& forall|account: ObjectID| #[trigger]
                accounts.contains(account) ==> after.granted_queue(account, settled).len() == 0
        }),
{
    let after = state.serve(accounts, settled);
    lemma_serve_keeps_queues(state, accounts, settled);
    assert forall|account: ObjectID| #[trigger]
        after.accounts.contains_key(account) && accounts.contains(account) implies {
        &&& after.served(account, settled) == after.accounts[account]
        &&& after.granted_queue(account, settled).len() == 0
    } by {
        lemma_served_requests(state, accounts, account, settled);
        law_serving_again_changes_nothing(
            state.accounts[account],
            state.requests_of(account),
            settled,
        );
    }
    assert forall|id: RegistrationId| #[trigger] after.registrations.contains_key(id) implies
        after.registration_after(id, accounts, settled) == after.registrations[id] by {
        let pending = after.registrations[id].pending_accounts;
        assert forall|account: ObjectID|
            accounts.contains(account) implies !#[trigger] after.is_granted(
            account,
            id,
            settled,
        ) by {}
        assert(after.registration_after(id, accounts, settled).pending_accounts =~= pending);
    }
    assert(after.newly_ready(accounts, settled) =~= Set::empty());
    assert(after.serve(accounts, settled).registrations =~= after.registrations);
    assert(after.serve(accounts, settled).accounts =~= after.accounts);
}

/// To enqueue transactions leaves the accounts as they are that none of the new ones withdraws
/// from.
pub proof fn law_enqueuing_leaves_other_accounts(
    state: SchedulerView,
    version: SequenceNumber,
    withdraws: Seq<WithdrawView>,
    balance: spec_fn(ObjectID) -> u64,
    account: ObjectID,
)
    requires
        !accounts_touched(state.unseen(version, withdraws)).contains(account),
    ensures
        ({
            let after = state.enqueue(version, withdraws, balance);
            &&& after.accounts.contains_key(account) == state.accounts.contains_key(account)
            &&& state.accounts.contains_key(account) ==> after.accounts[account]
                == state.accounts[account]
        }),
{
}

/// A settlement leaves an account as it is that it does not touch and whose queue has nothing to
/// grant at the settled version.
pub proof fn law_settlement_leaves_other_accounts(
    state: SchedulerView,
    settlement: SettlementView,
    account: ObjectID,
)
    requires
        state.wf(),
        !state.touched_by(settlement).contains(account),
        state.granted_queue(account, settlement.new_accumulator_version).len() == 0,
    ensures
        ({
            let after = state.process_settlement(settlement);
            &&& after.accounts.contains_key(account) == state.accounts.contains_key(account)
            &&& state.accounts.contains_key(account) ==> after.accounts[account]
                == state.accounts[account]
        }),
{
    if state.accounts.contains_key(account) {
        let middle = state.settle_balances(settlement);
        assert(middle.requests_of(account) =~= state.requests_of(account));
        lemma_reserve_all_takes_prefix(
            state.accounts[account],
            state.requests_of(account),
            settlement.new_accumulator_version,
        );
        assert(!state.accounts[account].is_empty());
    }
}

// What is told to whom.

/// A transaction that settlements make ready is known no longer, and one that is known no longer
/// is not made ready again: each is told once.
pub proof fn law_settlements_tell_once(state: SchedulerView, id: RegistrationId)
    requires
        state.settlements.dom().finite(),
    ensures
        state.ready_at_settlements().contains(id) ==> state.registrations.contains_key(id),
        state.process_settlements().registrations.contains_key(id) <==> {
            &&& state.registrations.contains_key(id)
            &&& !state.ready_at_settlements().contains(id)
        },
        state.process_settlements().next_registration == state.next_registration,
    decreases state.settlements.len(),
{
    if state.has_next_settlement() && !state.is_stuck() {
        law_settlements_tell_once(
            state.take_settlement().process_settlement(state.next_settlement()),
            id,
        );
    }
}

/// To enqueue transactions leaves those that wait as they are: only new ones can become ready, and
/// those that were known stay so and wait for the same accounts.
pub proof fn law_enqueuing_leaves_waiting_transactions(
    state: SchedulerView,
    version: SequenceNumber,
    withdraws: Seq<WithdrawView>,
    balance: spec_fn(ObjectID) -> u64,
    id: RegistrationId,
)
    requires
        state.wf(),
        state.has_room(withdraws),
        id < state.next_registration,
    ensures
        !state.ready_at_enqueue(version, withdraws, balance).contains(id),
        ({
            let after = state.enqueue(version, withdraws, balance);
            &&& after.registrations.contains_key(id) == state.registrations.contains_key(id)
            &&& state.registrations.contains_key(id) ==> after.registrations[id]
                == state.registrations[id]
        }),
{
    if state.has_work(version, withdraws) && state.registrations.contains_key(id) {
        let unseen = state.unseen(version, withdraws);
        let touched = accounts_touched(unseen);
        let settled = state.last_known_settled_version;
        let registered = state.register(version, withdraws, balance);
        lemma_first_of_distinct(withdraws, state.seen_at(version));
        lemma_register_keeps_wf(state, version, withdraws, balance);
        let pending = state.registrations[id].pending_accounts;
        assert forall|account: ObjectID|
            touched.contains(account) && pending.contains_key(account) implies !(
        #[trigger] registered.is_granted(account, id, settled)) by {
            assert(state.is_pending(account, id));
            assert(state.is_queued(account, id));
            assert(state.is_blocked(account, settled));
            let head = state.accounts[account].enqueued[0];
            assert(registered.accounts[account].enqueued[0] == head);
            assert(state.is_queued(account, head));
            assert(state.is_pending(account, head));
            assert(registered.requests_of(account)[0] == state.requests_of(account)[0]);
            assert(registered.served(account, settled) == registered.accounts[account]);
        }
        assert(registered.registration_after(id, touched, settled).pending_accounts =~= pending);
    }
}

/// To enqueue transactions never gives a transaction an identifier that another had before: a
/// transaction that is known no longer stays so, and nothing is handed out under its identifier.
pub proof fn law_identifiers_are_not_reused(
    state: SchedulerView,
    version: SequenceNumber,
    withdraws: Seq<WithdrawView>,
    balance: spec_fn(ObjectID) -> u64,
    id: RegistrationId,
)
    requires
        state.has_room(withdraws),
        id < state.next_registration,
        !state.registrations.contains_key(id),
    ensures
        ({
            let after = state.enqueue(version, withdraws, balance);
            &&& id < after.next_registration
            &&& !after.registrations.contains_key(id)
        }),
        forall|digest: TransactionDigest| #[trigger]
            state.receivers(version, withdraws, balance).contains_key(digest)
                ==> state.receivers(version, withdraws, balance)[digest].registration != Some(id),
{
    lemma_first_of_distinct(withdraws, state.seen_at(version));
    if state.last_known_settled_version <= version {
        let new = digests(state.unseen(version, withdraws));
        assert forall|digest: TransactionDigest| #[trigger]
            state.receivers(version, withdraws, balance).contains_key(digest) implies
            state.receivers(version, withdraws, balance)[digest].registration != Some(id) by {
            let i = new.index_of(digest);
            assert(new.contains(digest));
            assert(0 <= i < new.len());
        }
    }
}

/// A transaction that is handed out with a registration is known under it afterwards, and one that
/// is handed out without is not.
pub proof fn law_receivers_name_waiting_transactions(
    state: SchedulerView,
    version: SequenceNumber,
    withdraws: Seq<WithdrawView>,
    balance: spec_fn(ObjectID) -> u64,
    i: int,
)
    requires
        state.wf(),
        state.has_work(version, withdraws),
        state.has_room(withdraws),
        0 <= i < state.unseen(version, withdraws).len(),
    ensures
        ({
            let id = (state.next_registration + i) as RegistrationId;
            let receiver = state.receiver(version, withdraws, balance, i);
            state.enqueue(version, withdraws, balance).registrations.contains_key(id)
                <==> receiver.registration == Some(id)
        }),
{
    lemma_first_of_distinct(withdraws, state.seen_at(version));
    let id = (state.next_registration + i) as RegistrationId;
    assert(!state.registrations.contains_key(id));
}

} // verus!
