//! How what the scheduler keeps of accounts and versions adds up.
use crate::account_laws::{
    law_serving_keeps_settled_balance, law_settling_moves_settled_balance, settled_balance, total,
};
use crate::account_state::{lemma_reserve_all_takes_prefix, AccountView, Request};
use crate::model::{
    accounts_touched, ids_for, lemma_first_of_distinct, lemma_ids_for, lemma_register_keeps_wf,
    lemma_serve_keeps_queues, lemma_serve_leaves_others, lemma_serve_restores_wf,
    lemma_served_requests, lemma_settle_balances_keeps_wf, withdraws_from, SchedulerView,
};
use crate::types::{ObjectID, RegistrationId, SequenceNumber, SettlementView, WithdrawView};
use vstd::prelude::*;

verus! {

/// The transaction waits for the account, and was scheduled at the version.
pub open spec fn waits_at(
    state: SchedulerView,
    account: ObjectID,
    version: SequenceNumber,
    id: RegistrationId,
) -> bool {
    state.is_pending(account, id) && state.registrations[id].accumulator_version == version
}

/// Some reservation in the account is made at the version, or waits to be.
pub open spec fn is_outstanding(
    state: SchedulerView,
    account: ObjectID,
    version: SequenceNumber,
) -> bool {
    ||| state.accounts.contains_key(account) && state.accounts[account].reserved.contains_key(
        version,
    )
    ||| exists|id: RegistrationId| waits_at(state, account, version, id)
}

/// At every version, an account that a settlement has to give reservations back to has some that
/// are made there or wait to be.
pub open spec fn dues_are_outstanding(state: SchedulerView) -> bool {
    forall|account: ObjectID, version: SequenceNumber| #[trigger]
        state.due_accounts(version).contains(account) ==> is_outstanding(state, account, version)
}

/// At every version, the accounts that a settlement has to give reservations back to are those
/// with reservations that are made there or wait to be.
pub open spec fn books_match(state: SchedulerView) -> bool {
    &&& dues_are_outstanding(state)
    &&& forall|account: ObjectID, version: SequenceNumber| #[trigger]
        is_outstanding(state, account, version) ==> state.due_accounts(version).contains(account)
}

/// In every queue, none stands behind one that depends on a later version.
pub open spec fn queues_in_order(state: SchedulerView) -> bool {
    forall|account: ObjectID, i: int, j: int|
        state.accounts.contains_key(account) && 0 <= i < j
            < state.accounts[account].enqueued.len() ==> (
        #[trigger] state.requests_of(account)[i]).accumulator_version <= (
        #[trigger] state.requests_of(account)[j]).accumulator_version
}

/// No transaction waits that depends on a version beyond this one.
pub open spec fn none_waits_beyond(state: SchedulerView, version: SequenceNumber) -> bool {
    forall|id: RegistrationId| #[trigger]
        state.registrations.contains_key(id) ==> state.registrations[id].accumulator_version
            <= version
}

// The order of the versions.

/// Where transactions are enqueued in the order of their versions, the queues stay in order.
pub proof fn law_enqueuing_keeps_order(
    state: SchedulerView,
    version: SequenceNumber,
    withdraws: Seq<WithdrawView>,
    balance: spec_fn(ObjectID) -> u64,
)
    requires
        state.wf(),
        state.has_work(version, withdraws) ==> state.has_room(withdraws),
        queues_in_order(state),
        none_waits_beyond(state, version),
    ensures
        queues_in_order(state.enqueue(version, withdraws, balance)),
        none_waits_beyond(state.enqueue(version, withdraws, balance), version),
{
    if state.has_work(version, withdraws) {
        let unseen = state.unseen(version, withdraws);
        let first = state.next_registration;
        let registered = state.register(version, withdraws, balance);
        lemma_first_of_distinct(withdraws, state.seen_at(version));
        lemma_register_keeps_wf(state, version, withdraws, balance);
        assert(none_waits_beyond(registered, version));
        assert forall|account: ObjectID, i: int, j: int|
            registered.accounts.contains_key(account) && 0 <= i < j
                < registered.accounts[account].enqueued.len() implies (
        #[trigger] registered.requests_of(account)[i]).accumulator_version <= (
        #[trigger] registered.requests_of(account)[j]).accumulator_version by {
            let queue = registered.accounts[account].enqueued;
            let known = if state.accounts.contains_key(account) {
                state.accounts[account].enqueued
            } else {
                Seq::empty()
            };
            assert(registered.is_queued(account, queue[i]));
            assert(registered.is_pending(account, queue[i]));
            if j < known.len() {
                assert(state.is_queued(account, known[i]) && state.is_queued(account, known[j]));
                assert(state.is_pending(account, known[i]) && state.is_pending(account, known[j]));
                assert(state.requests_of(account)[i].accumulator_version <= state.requests_of(
                    account,
                )[j].accumulator_version);
            } else {
                let ids = ids_for(unseen, first, account);
                lemma_ids_for(unseen, first, account);
                assert(accounts_touched(unseen).contains(account));
                assert(queue[j] == ids[j - known.len()]);
                assert(ids.contains(queue[j]));
            }
        }
        lemma_serving_keeps_order(
            registered,
            accounts_touched(unseen),
            state.last_known_settled_version,
        );
    }
}

/// A settlement keeps the queues in order.
pub proof fn law_settlement_keeps_order(state: SchedulerView, settlement: SettlementView)
    requires
        state.wf(),
        queues_in_order(state),
    ensures
        queues_in_order(state.process_settlement(settlement)),
{
    let middle = state.settle_balances(settlement);
    lemma_settle_balances_keeps_wf(state, settlement);
    assert forall|account: ObjectID| state.accounts.contains_key(account) implies
        #[trigger] middle.requests_of(account) == state.requests_of(account) by {
        assert(middle.requests_of(account) =~= state.requests_of(account));
    }
    lemma_serving_keeps_order(
        middle,
        state.asked_by(settlement),
        settlement.new_accumulator_version,
    );
}

/// Where the queues are in order, only transactions wait that depend on a version that is not
/// settled yet.
pub proof fn law_only_unsettled_versions_wait(state: SchedulerView, id: RegistrationId)
    requires
        state.wf(),
        queues_in_order(state),
        state.registrations.contains_key(id),
    ensures
        state.registrations[id].accumulator_version > state.last_known_settled_version,
{
    let pending = state.registrations[id].pending_accounts;
    assert(exists|account: ObjectID| pending.contains_key(account)) by {
        if forall|account: ObjectID| !pending.contains_key(account) {
            assert(pending.dom() =~= Set::empty());
        }
    }
    let account = choose|account: ObjectID| pending.contains_key(account);
    assert(state.is_pending(account, id));
    assert(state.is_queued(account, id));
    assert(state.is_blocked(account, state.last_known_settled_version));
    let asked = state.requests_of(account);
    let i = state.accounts[account].enqueued.index_of(id);
    if i > 0 {
        assert(asked[0].accumulator_version <= asked[i].accumulator_version);
    }
}

// What is outstanding.

/// A scheduler starts out with matching books and queues in order.
pub proof fn law_books_match_at_first(version: SequenceNumber)
    ensures
        books_match(SchedulerView::init(version)),
        queues_in_order(SchedulerView::init(version)),
{
}

/// An account that a settlement has to give reservations back to is kept.
pub proof fn law_due_accounts_are_kept(
    state: SchedulerView,
    account: ObjectID,
    version: SequenceNumber,
)
    requires
        state.wf(),
        is_outstanding(state, account, version),
    ensures
        state.accounts.contains_key(account),
{
    if exists|id: RegistrationId| waits_at(state, account, version, id) {
        let id = choose|id: RegistrationId| waits_at(state, account, version, id);
        assert(state.is_queued(account, id));
    }
}

/// What enqueuing transactions does to the books: the accounts of the new transactions become due
/// and outstanding at their version.
proof fn lemma_enqueuing_books(
    state: SchedulerView,
    version: SequenceNumber,
    withdraws: Seq<WithdrawView>,
    balance: spec_fn(ObjectID) -> u64,
    account: ObjectID,
    at: SequenceNumber,
)
    requires
        state.wf(),
        state.has_work(version, withdraws),
        state.has_room(withdraws),
    ensures
        ({
            let after = state.enqueue(version, withdraws, balance);
            let new = at == version && accounts_touched(
                state.unseen(version, withdraws),
            ).contains(account);
            &&& after.due_accounts(at).contains(account) <==> state.due_accounts(at).contains(
                account,
            ) || new
            &&& is_outstanding(after, account, at) <==> is_outstanding(state, account, at) || new
            &&& after.wf()
        }),
{
    let unseen = state.unseen(version, withdraws);
    let touched = accounts_touched(unseen);
    let first = state.next_registration;
    let registered = state.register(version, withdraws, balance);
    lemma_first_of_distinct(withdraws, state.seen_at(version));
    lemma_register_keeps_wf(state, version, withdraws, balance);
    lemma_serve_restores_wf(registered, touched);
    lemma_serving_keeps_outstanding(
        registered,
        touched,
        state.last_known_settled_version,
        account,
        at,
    );
    if exists|id: RegistrationId| waits_at(state, account, at, id) {
        let id = choose|id: RegistrationId| waits_at(state, account, at, id);
        assert(waits_at(registered, account, at, id));
    }
    if at == version && touched.contains(account) {
        let i = choose|i: int| withdraws_from(unseen, i, account);
        let id = (first + i) as RegistrationId;
        assert(!unseen[i].reservations.is_empty());
        assert(waits_at(registered, account, at, id));
    }
    if exists|id: RegistrationId| waits_at(registered, account, at, id) {
        let id = choose|id: RegistrationId| waits_at(registered, account, at, id);
        if first <= id {
            assert(withdraws_from(unseen, id - first, account));
        } else {
            assert(waits_at(state, account, at, id));
        }
    }
}

/// To enqueue transactions keeps what is due outstanding.
pub proof fn law_enqueuing_keeps_dues_outstanding(
    state: SchedulerView,
    version: SequenceNumber,
    withdraws: Seq<WithdrawView>,
    balance: spec_fn(ObjectID) -> u64,
)
    requires
        state.wf(),
        state.has_work(version, withdraws) ==> state.has_room(withdraws),
        dues_are_outstanding(state),
    ensures
        dues_are_outstanding(state.enqueue(version, withdraws, balance)),
        state.enqueue(version, withdraws, balance).last_known_settled_version
            == state.last_known_settled_version,
{
    if state.has_work(version, withdraws) {
        let after = state.enqueue(version, withdraws, balance);
        assert forall|account: ObjectID, at: SequenceNumber| #[trigger]
            after.due_accounts(at).contains(account) implies is_outstanding(
            after,
            account,
            at,
        ) by {
            lemma_enqueuing_books(state, version, withdraws, balance, account, at);
        }
    }
}

/// To enqueue transactions keeps the books matching.
pub proof fn law_enqueuing_keeps_books(
    state: SchedulerView,
    version: SequenceNumber,
    withdraws: Seq<WithdrawView>,
    balance: spec_fn(ObjectID) -> u64,
)
    requires
        state.wf(),
        state.has_work(version, withdraws) ==> state.has_room(withdraws),
        books_match(state),
    ensures
        books_match(state.enqueue(version, withdraws, balance)),
{
    law_enqueuing_keeps_dues_outstanding(state, version, withdraws, balance);
    if state.has_work(version, withdraws) {
        let after = state.enqueue(version, withdraws, balance);
        assert forall|account: ObjectID, at: SequenceNumber| #[trigger]
            is_outstanding(after, account, at) implies after.due_accounts(at).contains(
            account,
        ) by {
            lemma_enqueuing_books(state, version, withdraws, balance, account, at);
        }
    }
}

/// A settlement of a version that is settled on keeps the books matching, where the queues are in
/// order.
pub proof fn law_settlement_keeps_books(state: SchedulerView, settlement: SettlementView)
    requires
        state.wf(),
        queues_in_order(state),
        books_match(state),
        settlement.old_accumulator_version <= state.last_known_settled_version,
    ensures
        books_match(state.process_settlement(settlement)),
{
    let due = settlement.old_accumulator_version;
    let middle = state.settle_balances(settlement);
    let after = state.process_settlement(settlement);
    lemma_settle_balances_keeps_wf(state, settlement);
    assert forall|account: ObjectID, at: SequenceNumber|
        after.due_accounts(at).contains(account) <==> is_outstanding(after, account, at) by {
        lemma_serving_keeps_outstanding(
            middle,
            state.asked_by(settlement),
            settlement.new_accumulator_version,
            account,
            at,
        );
        assert(state.due_accounts(at).contains(account) <==> is_outstanding(state, account, at));
        assert forall|id: RegistrationId| !waits_at(state, account, due, id) by {
            if state.registrations.contains_key(id) {
                law_only_unsettled_versions_wait(state, id);
            }
        }
        if exists|id: RegistrationId| waits_at(state, account, at, id) {
            let id = choose|id: RegistrationId| waits_at(state, account, at, id);
            assert(waits_at(middle, account, at, id));
        }
        if exists|id: RegistrationId| waits_at(middle, account, at, id) {
            let id = choose|id: RegistrationId| waits_at(middle, account, at, id);
            assert(waits_at(state, account, at, id));
        }
    }
}

/// A settlement of a version that is settled on finds a reservation in every account that it has
/// to give one back to, where the queues are in order.
pub proof fn law_settlement_finds_reservations(
    state: SchedulerView,
    settlement: SettlementView,
    account: ObjectID,
)
    requires
        state.wf(),
        queues_in_order(state),
        dues_are_outstanding(state),
        settlement.old_accumulator_version <= state.last_known_settled_version,
        state.due_version(settlement, account) is Some,
    ensures
        state.accounts.contains_key(account),
        state.accounts[account].reserved.contains_key(settlement.old_accumulator_version),
{
    let due = settlement.old_accumulator_version;
    assert(state.due_accounts(due).contains(account));
    assert forall|id: RegistrationId| !waits_at(state, account, due, id) by {
        if state.registrations.contains_key(id) {
            law_only_unsettled_versions_wait(state, id);
        }
    }
}

// The balances.

/// To enqueue transactions changes the settled balance of no account that was known, whatever
/// would be read for it now. An account that becomes known starts out with the balance that is
/// read, and all accounts of the new transactions are known afterwards.
pub proof fn law_enqueuing_keeps_balances(
    state: SchedulerView,
    version: SequenceNumber,
    withdraws: Seq<WithdrawView>,
    balance: spec_fn(ObjectID) -> u64,
    account: ObjectID,
)
    requires
        state.wf(),
        state.can_enqueue(version, withdraws, balance),
    ensures
        ({
            let after = state.enqueue(version, withdraws, balance);
            &&& state.accounts.contains_key(account) ==> {
                &&& after.accounts.contains_key(account)
                &&& settled_balance(after.accounts[account]) == settled_balance(
                    state.accounts[account],
                )
            }
            &&& !state.accounts.contains_key(account) && after.accounts.contains_key(account)
                ==> settled_balance(after.accounts[account]) == balance(account)
            &&& state.has_work(version, withdraws) && accounts_touched(
                state.unseen(version, withdraws),
            ).contains(account) ==> after.accounts.contains_key(account)
        }),
{
    if state.has_work(version, withdraws) {
        let unseen = state.unseen(version, withdraws);
        let registered = state.register(version, withdraws, balance);
        let settled = state.last_known_settled_version;
        let after = state.enqueue(version, withdraws, balance);
        lemma_enqueuing_books(state, version, withdraws, balance, account, version);
        if accounts_touched(unseen).contains(account) {
            law_due_accounts_are_kept(after, account, version);
            let before = registered.accounts[account];
            if !state.accounts.contains_key(account) {
                assert(before.reserved == Map::<SequenceNumber, u64>::empty());
                assert(total(before.reserved) == 0);
            }
            assert(registered.can_serve(account, settled));
            law_serving_keeps_settled_balance(before, registered.requests_of(account), settled);
        }
    }
}

/// A settlement moves the settled balance of every account that is kept by the change that it
/// brings for it.
pub proof fn law_settlement_moves_balances(
    state: SchedulerView,
    settlement: SettlementView,
    account: ObjectID,
)
    requires
        state.wf(),
        state.can_settle(settlement),
        state.process_settlement(settlement).accounts.contains_key(account),
    ensures
        state.accounts.contains_key(account),
        settled_balance(state.process_settlement(settlement).accounts[account])
            == settled_balance(state.accounts[account])
            + if settlement.balance_changes.contains_key(account) {
            settlement.balance_changes[account] as int
        } else {
            0
        },
{
    let middle = state.settle_balances(settlement);
    let settled = settlement.new_accumulator_version;
    law_settling_moves_settled_balance(
        state.accounts[account],
        state.due_version(settlement, account),
        settlement.change_of(account) as int,
    );
    assert(state.asked_by(settlement).contains(account));
    assert(state.can_settle_account(settlement, account));
    assert(middle.can_serve(account, settled));
    law_serving_keeps_settled_balance(
        middle.accounts[account],
        middle.requests_of(account),
        settled,
    );
}

/// Serving queues keeps them in order.
proof fn lemma_serving_keeps_order(
    state: SchedulerView,
    accounts: Set<ObjectID>,
    settled: SequenceNumber,
)
    requires
        state.queues_match(),
        state.registrations_wait(),
        queues_in_order(state),
    ensures
        queues_in_order(state.serve(accounts, settled)),
{
    let after = state.serve(accounts, settled);
    assert forall|account: ObjectID, i: int, j: int|
        after.accounts.contains_key(account) && 0 <= i < j
            < after.accounts[account].enqueued.len() implies (
    #[trigger] after.requests_of(account)[i]).accumulator_version <= (
    #[trigger] after.requests_of(account)[j]).accumulator_version by {
        let asked = state.requests_of(account);
        if accounts.contains(account) {
            let count = state.accounts[account].granted_count(asked, settled) as int;
            lemma_served_requests(state, accounts, account, settled);
            lemma_reserve_all_takes_prefix(state.accounts[account], asked, settled);
            assert(asked[i + count].accumulator_version <= asked[j + count].accumulator_version);
        } else {
            lemma_serve_leaves_others(state, accounts, account, settled);
            assert(asked[i].accumulator_version <= asked[j].accumulator_version);
        }
    }
}

/// Serving a queue reserves at the versions of the requests that it grants.
proof fn lemma_reserved_when_granted(
    account: AccountView,
    requests: Seq<Request>,
    settled: SequenceNumber,
    version: SequenceNumber,
)
    ensures
        account.reserve_all(requests, settled).reserved.contains_key(version) <==> {
            ||| account.reserved.contains_key(version)
            ||| exists|i: int|
                0 <= i < account.granted_count(requests, settled) && i < requests.len() && (
                #[trigger] requests[i]).accumulator_version == version
        },
    decreases requests.len(),
{
    if requests.len() > 0 && account.grants(requests[0], settled) {
        let next = account.reserve(requests[0]);
        let rest = requests.drop_first();
        let count = next.granted_count(rest, settled);
        lemma_reserved_when_granted(next, rest, settled, version);
        if exists|i: int|
            0 <= i < count && i < rest.len() && (#[trigger] rest[i]).accumulator_version
                == version {
            let i = choose|i: int|
                0 <= i < count && i < rest.len() && (#[trigger] rest[i]).accumulator_version
                    == version;
            assert(requests[i + 1].accumulator_version == version);
        }
        if exists|i: int|
            0 <= i < count + 1 && i < requests.len() && (
            #[trigger] requests[i]).accumulator_version == version {
            let i = choose|i: int|
                0 <= i < count + 1 && i < requests.len() && (
                #[trigger] requests[i]).accumulator_version == version;
            if i > 0 {
                assert(rest[i - 1].accumulator_version == version);
            }
        }
        if requests[0].accumulator_version == version {
            assert(0 <= 0 < account.granted_count(requests, settled));
        }
    }
}

/// Serving queues turns reservations that wait into ones that are made, and loses none.
proof fn lemma_serving_keeps_outstanding(
    state: SchedulerView,
    accounts: Set<ObjectID>,
    settled: SequenceNumber,
    account: ObjectID,
    version: SequenceNumber,
)
    requires
        state.queues_match(),
        state.registrations_wait(),
    ensures
        is_outstanding(state.serve(accounts, settled), account, version) == is_outstanding(
            state,
            account,
            version,
        ),
{
    let after = state.serve(accounts, settled);
    lemma_serve_keeps_queues(state, accounts, settled);
    if state.accounts.contains_key(account) {
        let queue = state.accounts[account].enqueued;
        let asked = state.requests_of(account);
        let count = state.accounts[account].granted_count(asked, settled) as int;
        let served = state.served(account, settled);
        lemma_reserve_all_takes_prefix(state.accounts[account], asked, settled);
        lemma_reserved_when_granted(state.accounts[account], asked, settled, version);
        assert(served.reserved.contains_key(version) ==> !served.is_empty());
        if exists|id: RegistrationId| waits_at(state, account, version, id) {
            let id = choose|id: RegistrationId| waits_at(state, account, version, id);
            assert(state.is_queued(account, id));
            if accounts.contains(account) && state.is_granted(account, id, settled) {
                let i = queue.index_of(id);
                if i >= count {
                    assert(served.enqueued[i - count] == id);
                }
                assert(asked[i].accumulator_version == version);
            } else {
                let left = state.registration_after(id, accounts, settled).pending_accounts;
                assert(left.contains_key(account));
                assert(!left.is_empty());
                assert(waits_at(after, account, version, id));
            }
        }
        if exists|i: int|
            0 <= i < count && i < asked.len() && (#[trigger] asked[i]).accumulator_version
                == version {
            let i = choose|i: int|
                0 <= i < count && i < asked.len() && (#[trigger] asked[i]).accumulator_version
                    == version;
            assert(state.is_queued(account, queue[i]));
            assert(waits_at(state, account, version, queue[i]));
        }
    } else {
        assert forall|id: RegistrationId| !waits_at(state, account, version, id) by {
            assert(!state.is_queued(account, id));
        }
    }
    if exists|id: RegistrationId| waits_at(after, account, version, id) {
        let id = choose|id: RegistrationId| waits_at(after, account, version, id);
        assert(waits_at(state, account, version, id));
    }
}

} // verus!
