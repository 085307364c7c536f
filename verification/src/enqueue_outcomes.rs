//! What enqueuing transactions comes to, told of the list, the accounts and the balances alone.
use crate::account_laws::{amount_of, is_secured, law_granted_when_secured};
use crate::account_state::{lemma_reserve_all_takes_prefix, AccountView, Request};
use crate::balance_read::AccountBalanceRead;
use crate::laws::{law_enqueuing_leaves_waiting_transactions, law_ready_when_every_account_grants};
use crate::model::{
    accounts_touched, balances_at, digests, first_of, ids_for, lemma_first_of_distinct,
    lemma_register_keeps_wf, lemma_serve_restores_wf, withdraws_from, SchedulerView,
};
use crate::outcomes::{
    amount_at, amount_in, is_served, law_serving_is_possible, law_serving_outcome,
    lemma_amounts_grow, lemma_granted_is_not_waiting, need_not_wait, none_waits_before,
    numbers_fit,
};
use crate::types::{
    ObjectID, RegistrationId, ScheduleResult, SequenceNumber, TransactionDigest, WithdrawView,
};
use vstd::prelude::*;

verus! {

/// The transaction at a place in the list is new: it has not been scheduled at the version, and
/// does not stand further ahead in the list.
pub open spec fn is_new(
    state: SchedulerView,
    version: SequenceNumber,
    withdraws: Seq<WithdrawView>,
    i: int,
) -> bool {
    &&& 0 <= i < withdraws.len()
    &&& !(state.pending.contains_key(version) && state.pending[version].transactions.contains(
        withdraws[i].tx_digest,
    ))
    &&& forall|j: int| 0 <= j < i ==> (#[trigger] withdraws[j]).tx_digest != withdraws[i].tx_digest
}

/// The transaction at a place in the list is new, and withdraws from the account.
pub open spec fn asks(
    state: SchedulerView,
    version: SequenceNumber,
    withdraws: Seq<WithdrawView>,
    account: ObjectID,
    i: int,
) -> bool {
    is_new(state, version, withdraws, i) && withdraws[i].reservations.contains_key(account)
}

/// What the new transactions ahead of place `n` withdraw from the account together.
pub open spec fn asked_before(
    state: SchedulerView,
    version: SequenceNumber,
    withdraws: Seq<WithdrawView>,
    account: ObjectID,
    n: int,
) -> int
    decreases n,
{
    if n <= 0 {
        0
    } else {
        asked_before(state, version, withdraws, account, n - 1) + if asks(
            state,
            version,
            withdraws,
            account,
            n - 1,
        ) {
            withdraws[n - 1].reservations[account] as int
        } else {
            0
        }
    }
}

/// What the account can give: its guaranteed minimum balance, or the balance that is read for it
/// where it is not known yet.
pub open spec fn start_balance(
    state: SchedulerView,
    balance: spec_fn(ObjectID) -> u64,
    account: ObjectID,
) -> int {
    if state.accounts.contains_key(account) {
        state.accounts[account].last_known_min_balance
    } else {
        balance(account) as int
    }
}

/// The account does not make the transaction wait: nothing waits there already, and the version is
/// settled or the balance covers the transaction and the new ones ahead of it in the list.
pub open spec fn grants_new(
    state: SchedulerView,
    version: SequenceNumber,
    withdraws: Seq<WithdrawView>,
    balance: spec_fn(ObjectID) -> u64,
    account: ObjectID,
    i: int,
) -> bool {
    &&& state.accounts.contains_key(account) ==> state.accounts[account].enqueued.len() == 0
    &&& version <= state.last_known_settled_version || asked_before(
        state,
        version,
        withdraws,
        account,
        i + 1,
    ) <= start_balance(state, balance, account)
}

/// What the account grants to the new transactions ahead of place `n` together.
pub open spec fn granted_before(
    state: SchedulerView,
    version: SequenceNumber,
    withdraws: Seq<WithdrawView>,
    balance: spec_fn(ObjectID) -> u64,
    account: ObjectID,
    n: int,
) -> int
    decreases n,
{
    if n <= 0 {
        0
    } else {
        granted_before(state, version, withdraws, balance, account, n - 1) + if asks(
            state,
            version,
            withdraws,
            account,
            n - 1,
        ) && grants_new(state, version, withdraws, balance, account, n - 1) {
            withdraws[n - 1].reservations[account] as int
        } else {
            0
        }
    }
}

/// The transaction withdraws from some account, and none of its accounts makes it wait.
pub open spec fn is_ready_at_once(
    state: SchedulerView,
    version: SequenceNumber,
    withdraws: Seq<WithdrawView>,
    balance: spec_fn(ObjectID) -> u64,
    i: int,
) -> bool {
    &&& exists|account: ObjectID| withdraws[i].reservations.contains_key(account)
    &&& forall|account: ObjectID| #[trigger]
        withdraws[i].reservations.contains_key(account) ==> grants_new(
            state,
            version,
            withdraws,
            balance,
            account,
            i,
        )
}

/// The numbers that the account comes to when it grants what need not wait can be represented.
pub open spec fn list_fits(
    state: SchedulerView,
    version: SequenceNumber,
    withdraws: Seq<WithdrawView>,
    balance: spec_fn(ObjectID) -> u64,
    account: ObjectID,
) -> bool {
    let granted = granted_before(
        state,
        version,
        withdraws,
        balance,
        account,
        withdraws.len() as int,
    );
    forall|i: int| #[trigger]
        asks(state, version, withdraws, account, i) && grants_new(
            state,
            version,
            withdraws,
            balance,
            account,
            i,
        ) ==> {
            &&& start_balance(state, balance, account) - granted >= i128::MIN
            &&& reserved_in(state, account, version) + granted <= u64::MAX
        }
}

/// What the account has reserved at a version.
pub open spec fn reserved_in(
    state: SchedulerView,
    account: ObjectID,
    version: SequenceNumber,
) -> int {
    if state.accounts.contains_key(account) {
        amount_in(state.accounts[account].reserved, version)
    } else {
        0
    }
}

// The laws.

/// A list can be enqueued exactly if there is nothing to do, or if there are identifiers for its
/// transactions and the balances and reservations that result can be represented. Nothing else
/// stands in its way.
pub proof fn law_list_is_possible(
    state: SchedulerView,
    version: SequenceNumber,
    withdraws: Seq<WithdrawView>,
    balance: spec_fn(ObjectID) -> u64,
)
    requires
        state.wf(),
    ensures
        state.can_enqueue(version, withdraws, balance) <==> {
            ||| withdraws.len() == 0
            ||| version < state.last_known_settled_version
            ||| {
                &&& state.next_registration + withdraws.len() <= RegistrationId::MAX
                &&& forall|account: ObjectID| #[trigger]
                    list_fits(state, version, withdraws, balance, account)
            }
        },
{
    let settled = state.last_known_settled_version;
    let registered = state.register(version, withdraws, balance);
    let touched = accounts_touched(state.unseen(version, withdraws));
    if state.next_registration + withdraws.len() <= RegistrationId::MAX {
        assert forall|account: ObjectID| #[trigger]
            list_fits(state, version, withdraws, balance, account) == (touched.contains(account)
                ==> registered.can_serve(account, settled)) by {
            lemma_touched(state, version, withdraws, account);
            if touched.contains(account) {
                lemma_list_fits(state, version, withdraws, balance, account);
            }
        }
        if forall|account: ObjectID| #[trigger]
            list_fits(state, version, withdraws, balance, account) {
            assert forall|account: ObjectID| #[trigger]
                touched.contains(account) implies registered.can_serve(account, settled) by {
                assert(list_fits(state, version, withdraws, balance, account));
            }
        }
    }
}

/// A list without transactions, or of a version before the last settled one, changes nothing.
pub proof fn law_nothing_to_enqueue(
    state: SchedulerView,
    version: SequenceNumber,
    withdraws: Seq<WithdrawView>,
    balance: spec_fn(ObjectID) -> u64,
)
    requires
        withdraws.len() == 0 || version < state.last_known_settled_version,
    ensures
        state.enqueue(version, withdraws, balance) == state,
{
}

/// For which transactions something is handed out: for those that are new, or for all where the
/// version is before the last settled one, which are told that they have been executed.
pub proof fn law_list_is_answered(
    state: SchedulerView,
    version: SequenceNumber,
    withdraws: Seq<WithdrawView>,
    balance: spec_fn(ObjectID) -> u64,
    digest: TransactionDigest,
)
    ensures
        ({
            let receivers = state.receivers(version, withdraws, balance);
            if version < state.last_known_settled_version {
                &&& receivers.contains_key(digest) <==> exists|i: int|
                    0 <= i < withdraws.len() && (#[trigger] withdraws[i]).tx_digest == digest
                &&& receivers.contains_key(digest) ==> {
                    &&& receivers[digest].result == ScheduleResult::AlreadyExecuted
                    &&& receivers[digest].registration is None
                }
            } else {
                receivers.contains_key(digest) <==> exists|i: int| #[trigger]
                    is_new(state, version, withdraws, i) && withdraws[i].tx_digest == digest
            }
        }),
{
    let receivers = state.receivers(version, withdraws, balance);
    if version < state.last_known_settled_version {
        if digests(withdraws).contains(digest) {
            let i = digests(withdraws).index_of(digest);
            assert(withdraws[i].tx_digest == digest);
        }
        if exists|i: int|
            0 <= i < withdraws.len() && (#[trigger] withdraws[i]).tx_digest == digest {
            let i = choose|i: int|
                0 <= i < withdraws.len() && (#[trigger] withdraws[i]).tx_digest == digest;
            assert(digests(withdraws)[i] == digest);
        }
    } else {
        let unseen = state.unseen(version, withdraws);
        let all = withdraws.len() as int;
        assert(withdraws.take(all) =~= withdraws);
        if digests(unseen).contains(digest) {
            let at = digests(unseen).index_of(digest);
            let i = lemma_place_of(state, version, withdraws, all, at);
            lemma_place(state, version, withdraws, i);
            assert(is_new(state, version, withdraws, i) && withdraws[i].tx_digest == digest);
        }
        if exists|i: int| #[trigger]
            is_new(state, version, withdraws, i) && withdraws[i].tx_digest == digest {
            let i = choose|i: int| #[trigger]
                is_new(state, version, withdraws, i) && withdraws[i].tx_digest == digest;
            lemma_place(state, version, withdraws, i);
        }
    }
}

/// What a new transaction is told: that it is ready, exactly if it withdraws from some account and
/// none of its accounts makes it wait; and nothing yet otherwise. One that has to wait gets a
/// registration, under which it waits for the accounts that make it wait, and for the amounts that
/// it withdraws from them.
pub proof fn law_new_transaction_is_told(
    state: SchedulerView,
    version: SequenceNumber,
    withdraws: Seq<WithdrawView>,
    balance: spec_fn(ObjectID) -> u64,
    i: int,
)
    requires
        state.wf(),
        state.last_known_settled_version <= version,
        state.next_registration + withdraws.len() <= RegistrationId::MAX,
        is_new(state, version, withdraws, i),
    ensures
        ({
            let receivers = state.receivers(version, withdraws, balance);
            let told = receivers[withdraws[i].tx_digest];
            let reservations = withdraws[i].reservations;
            let after = state.enqueue(version, withdraws, balance);
            &&& receivers.contains_key(withdraws[i].tx_digest)
            &&& told.result == if is_ready_at_once(state, version, withdraws, balance, i) {
                ScheduleResult::ReadyForExecution
            } else {
                ScheduleResult::Init
            }
            &&& told.registration is Some <==> {
                &&& told.result == ScheduleResult::Init
                &&& exists|account: ObjectID| reservations.contains_key(account)
            }
            &&& told.registration matches Some(id) ==> {
                let waits = after.registrations[id];
                &&& state.next_registration <= id < after.next_registration
                &&& after.registrations.contains_key(id)
                &&& waits.accumulator_version == version
                &&& waits.result == ScheduleResult::Init
                &&& forall|account: ObjectID| #[trigger]
                    waits.pending_accounts.contains_key(account) <==> {
                        &&& reservations.contains_key(account)
                        &&& !grants_new(state, version, withdraws, balance, account, i)
                    }
                &&& forall|account: ObjectID| #[trigger]
                    waits.pending_accounts.contains_key(account)
                        ==> waits.pending_accounts[account] == reservations[account]
            }
        }),
{
    let settled = state.last_known_settled_version;
    let unseen = state.unseen(version, withdraws);
    let touched = accounts_touched(unseen);
    let registered = state.register(version, withdraws, balance);
    let after = state.enqueue(version, withdraws, balance);
    let at = place(state, version, withdraws, i);
    let id = (state.next_registration + at) as RegistrationId;
    let reservations = withdraws[i].reservations;
    lemma_place(state, version, withdraws, i);
    assert(!state.registrations.contains_key(id));
    if exists|account: ObjectID| reservations.contains_key(account) {
        let some = choose|account: ObjectID| reservations.contains_key(account);
        assert(!reservations.is_empty());
        assert(registered.registrations.contains_key(id));
        law_ready_when_every_account_grants(registered, touched, settled, id);
        assert forall|account: ObjectID| #[trigger] reservations.contains_key(account) implies {
            &&& touched.contains(account)
            &&& registered.is_granted(account, id, settled) == grants_new(
                state,
                version,
                withdraws,
                balance,
                account,
                i,
            )
        } by {
            assert(asks(state, version, withdraws, account, i));
            lemma_touched(state, version, withdraws, account);
            lemma_grants_new(state, version, withdraws, balance, account, i);
        }
        assert(registered.registrations[id].pending_accounts == reservations);
    } else {
        assert(reservations.dom() =~= Set::empty());
        assert(reservations.is_empty());
        assert(!registered.registrations.contains_key(id));
    }
}

/// Transactions that wait get registrations in the order of the list: no two get the same.
pub proof fn law_registrations_follow_the_list(
    state: SchedulerView,
    version: SequenceNumber,
    withdraws: Seq<WithdrawView>,
    balance: spec_fn(ObjectID) -> u64,
    i: int,
    j: int,
)
    requires
        state.wf(),
        state.last_known_settled_version <= version,
        state.next_registration + withdraws.len() <= RegistrationId::MAX,
        is_new(state, version, withdraws, i),
        is_new(state, version, withdraws, j),
        i < j,
    ensures
        ({
            let receivers = state.receivers(version, withdraws, balance);
            let one = receivers[withdraws[i].tx_digest].registration;
            let other = receivers[withdraws[j].tx_digest].registration;
            one is Some && other is Some ==> one->Some_0 < other->Some_0
        }),
{
    lemma_place(state, version, withdraws, i);
    lemma_place(state, version, withdraws, j);
    lemma_first_of_next(state, version, withdraws, i);
    lemma_first_of_prefix(state, version, withdraws, i + 1, j);
}

/// Which transactions wait after a list has been enqueued: those that did, for the same accounts,
/// and the new ones that were handed out a registration.
pub proof fn law_who_waits_after_a_list(
    state: SchedulerView,
    version: SequenceNumber,
    withdraws: Seq<WithdrawView>,
    balance: spec_fn(ObjectID) -> u64,
    id: RegistrationId,
)
    requires
        state.wf(),
        state.last_known_settled_version <= version,
        state.next_registration + withdraws.len() <= RegistrationId::MAX,
    ensures
        ({
            let receivers = state.receivers(version, withdraws, balance);
            let after = state.enqueue(version, withdraws, balance);
            &&& state.next_registration <= after.next_registration <= state.next_registration
                + withdraws.len()
            &&& state.registrations.contains_key(id) ==> {
                &&& after.registrations.contains_key(id)
                &&& after.registrations[id] == state.registrations[id]
            }
            &&& after.registrations.contains_key(id) && !state.registrations.contains_key(id)
                ==> exists|i: int| #[trigger]
                is_new(state, version, withdraws, i)
                    && receivers[withdraws[i].tx_digest].registration == Some(id)
        }),
{
    lemma_first_of_distinct(withdraws, state.seen_at(version));
    if state.registrations.contains_key(id) {
        law_enqueuing_leaves_waiting_transactions(state, version, withdraws, balance, id);
    }
    let after = state.enqueue(version, withdraws, balance);
    if after.registrations.contains_key(id) && !state.registrations.contains_key(id) {
        let unseen = state.unseen(version, withdraws);
        let all = withdraws.len() as int;
        let at = id - state.next_registration;
        assert(withdraws.take(all) =~= withdraws);
        lemma_first_of_distinct(withdraws, state.seen_at(version));
        assert(0 <= at < unseen.len());
        let i = lemma_place_of(state, version, withdraws, all, at);
        lemma_place(state, version, withdraws, i);
        assert(is_new(state, version, withdraws, i));
    }
}

/// What a list does to an account that some new transaction of it withdraws from. The account is
/// kept; what it grants leaves its balance and is reserved at the version of the list; the queue
/// that it had stays, and the new transactions that wait stand behind it in their order. An
/// account that was not known starts out with the balance that is read for it.
pub proof fn law_list_outcome(
    state: SchedulerView,
    version: SequenceNumber,
    withdraws: Seq<WithdrawView>,
    balance: spec_fn(ObjectID) -> u64,
    account: ObjectID,
)
    requires
        state.wf(),
        state.last_known_settled_version <= version,
        state.next_registration + withdraws.len() <= RegistrationId::MAX,
        forall|other: ObjectID| #[trigger] list_fits(state, version, withdraws, balance, other),
        exists|i: int| asks(state, version, withdraws, account, i),
    ensures
        ({
            let after = state.enqueue(version, withdraws, balance);
            let left = after.accounts[account];
            let granted = granted_before(
                state,
                version,
                withdraws,
                balance,
                account,
                withdraws.len() as int,
            );
            &&& after.accounts.contains_key(account)
            &&& left.last_known_min_balance == start_balance(state, balance, account) - granted
            &&& forall|at: SequenceNumber|
                amount_in(left.reserved, at) == #[trigger] reserved_in(state, account, at)
                    + if at == version {
                    granted
                } else {
                    0
                }
            &&& forall|at: SequenceNumber| #[trigger]
                left.reserved.contains_key(at) <==> {
                    ||| state.accounts.contains_key(account)
                        && state.accounts[account].reserved.contains_key(at)
                    ||| at == version && exists|i: int| #[trigger]
                        asks(state, version, withdraws, account, i) && grants_new(
                            state,
                            version,
                            withdraws,
                            balance,
                            account,
                            i,
                        )
                }
            &&& state.accounts.contains_key(account) ==> {
                let queue = state.accounts[account].enqueued;
                &&& queue.is_prefix_of(left.enqueued)
                &&& forall|k: int|
                    queue.len() <= k < left.enqueued.len() ==> #[trigger] left.enqueued[k]
                        >= state.next_registration
            }
            &&& forall|j: int, k: int|
                0 <= j < k < left.enqueued.len() && left.enqueued[j] >= state.next_registration
                    ==> #[trigger] left.enqueued[j] < #[trigger] left.enqueued[k]
            &&& forall|id: RegistrationId| #[trigger]
                left.enqueued.contains(id) <==> {
                    &&& after.registrations.contains_key(id)
                    &&& after.registrations[id].pending_accounts.contains_key(account)
                }
        }),
{
    let settled = state.last_known_settled_version;
    let unseen = state.unseen(version, withdraws);
    let touched = accounts_touched(unseen);
    let registered = state.register(version, withdraws, balance);
    let after = state.enqueue(version, withdraws, balance);
    let all = withdraws.len() as int;
    let first = state.next_registration;
    assert(withdraws.take(all) =~= withdraws);
    lemma_touched(state, version, withdraws, account);
    lemma_registered_requests(state, version, withdraws, balance, account);
    lemma_register_keeps_wf(state, version, withdraws, balance);
    lemma_serve_restores_wf(registered, touched);
    lemma_first_of_distinct(withdraws, state.seen_at(version));
    let before = registered.accounts[account];
    let asked = registered.requests_of(account);
    let known = known_queue(state, account);
    let new = list_requests(unseen, version, account);
    let ids = ids_for(unseen, first, account);
    let count = before.granted_count(asked, settled) as int;
    let served = registered.served(account, settled);
    assert(list_fits(state, version, withdraws, balance, account));
    lemma_list_fits(state, version, withdraws, balance, account);
    law_serving_outcome(before, asked, settled);
    assert(is_served(before, asked, settled, count, served));
    lemma_granted_before(state, version, withdraws, balance, account, all);
    lemma_ids_and_requests(unseen, version, first, account);
    let granted = asked.take(count);
    if known.len() > 0 {
        if count > 0 {
            assert(need_not_wait(before.last_known_min_balance, asked, settled, 0));
        }
        assert(granted =~= Seq::empty());
        assert forall|i: int| asks(state, version, withdraws, account, i) implies !grants_new(
            state,
            version,
            withdraws,
            balance,
            account,
            i,
        ) by {}
    } else {
        assert(new.take(count) == granted);
    }
    assert forall|i: int| 0 <= i < granted.len() implies (
    #[trigger] granted[i]).accumulator_version == version by {
        assert(ids[i] >= first);
    }
    assert forall|at: SequenceNumber|
        amount_in(served.reserved, at) == #[trigger] reserved_in(state, account, at) + if at
            == version {
            granted_before(state, version, withdraws, balance, account, all)
        } else {
            0
        } by {
        lemma_one_version(granted, version, at);
        assert(amount_in(before.reserved, at) == reserved_in(state, account, at));
    }
    assert forall|at: SequenceNumber| #[trigger]
        served.reserved.contains_key(at) <==> {
            ||| state.accounts.contains_key(account)
                && state.accounts[account].reserved.contains_key(at)
            ||| at == version && exists|i: int| #[trigger]
                asks(state, version, withdraws, account, i) && grants_new(
                    state,
                    version,
                    withdraws,
                    balance,
                    account,
                    i,
                )
        } by {
        if exists|k: int|
            0 <= k < count && (#[trigger] asked[k]).accumulator_version == at {
            let k = choose|k: int|
                0 <= k < count && (#[trigger] asked[k]).accumulator_version == at;
            assert(granted[k] == asked[k]);
            lemma_some_granted(state, version, withdraws, balance, account);
        }
        if at == version && exists|i: int| #[trigger]
            asks(state, version, withdraws, account, i) && grants_new(
                state,
                version,
                withdraws,
                balance,
                account,
                i,
            ) {
            lemma_some_granted(state, version, withdraws, balance, account);
            assert(asked[0].accumulator_version == at) by {
                assert(granted[0] == asked[0]);
            }
        }
    }
    assert(!served.is_empty()) by {
        if count < asked.len() {
            assert(served.enqueued.len() > 0);
        } else {
            let i = choose|i: int| asks(state, version, withdraws, account, i);
            lemma_queue_place(state, version, withdraws, account, i);
            assert(asked[0].accumulator_version == asked[0].accumulator_version);
            assert(served.reserved.contains_key(asked[0].accumulator_version));
        }
    }
    let left = after.accounts[account];
    assert(left == served);
    assert forall|id: RegistrationId| #[trigger] left.enqueued.contains(id) <==> {
        &&& after.registrations.contains_key(id)
        &&& after.registrations[id].pending_accounts.contains_key(account)
    } by {
        assert(after.is_queued(account, id) <==> after.is_pending(account, id));
    }
    assert forall|j: int, k: int|
        0 <= j < k < left.enqueued.len() && left.enqueued[j] >= first implies
        #[trigger] left.enqueued[j] < #[trigger] left.enqueued[k] by {
        let queue = before.enqueued;
        assert(left.enqueued[j] == queue[j + count]);
        assert(left.enqueued[k] == queue[k + count]);
        if j + count < known.len() {
            assert(state.is_queued(account, known[j + count]));
            assert(state.is_pending(account, known[j + count]));
        }
        assert(queue[j + count] == ids[j + count - known.len()]);
        assert(queue[k + count] == ids[k + count - known.len()]);
    }
    if state.accounts.contains_key(account) {
        if known.len() > 0 {
            assert(left.enqueued =~= known + ids);
        }
        assert forall|k: int| known.len() <= k < left.enqueued.len() implies
            #[trigger] left.enqueued[k] >= first by {
            assert(left.enqueued[k] == ids[k + count - known.len()]);
        }
    }
}

/// A list leaves all else as it is: the accounts that no new transaction of it withdraws from, and
/// what has been settled and waits to be.
pub proof fn law_list_leaves_the_rest(
    state: SchedulerView,
    version: SequenceNumber,
    withdraws: Seq<WithdrawView>,
    balance: spec_fn(ObjectID) -> u64,
    account: ObjectID,
)
    requires
        !(exists|i: int| asks(state, version, withdraws, account, i)),
    ensures
        ({
            let after = state.enqueue(version, withdraws, balance);
            &&& after.accounts.contains_key(account) == state.accounts.contains_key(account)
            &&& state.accounts.contains_key(account) ==> after.accounts[account]
                == state.accounts[account]
            &&& after.last_known_settled_version == state.last_known_settled_version
            &&& after.settlements == state.settlements
            &&& after.expected_version == state.expected_version
        }),
{
    lemma_touched(state, version, withdraws, account);
}

/// What is noted when a list is enqueued: at its version, its transactions and the accounts of the
/// new ones, besides what was; and nothing at other versions.
pub proof fn law_list_is_noted(
    state: SchedulerView,
    version: SequenceNumber,
    withdraws: Seq<WithdrawView>,
    balance: spec_fn(ObjectID) -> u64,
    at: SequenceNumber,
)
    requires
        withdraws.len() > 0,
        state.last_known_settled_version <= version,
    ensures
        ({
            let before = state.pending;
            let after = state.enqueue(version, withdraws, balance).pending;
            &&& at != version ==> {
                &&& after.contains_key(at) == before.contains_key(at)
                &&& before.contains_key(at) ==> after[at] == before[at]
            }
            &&& after.contains_key(version)
            &&& forall|digest: TransactionDigest| #[trigger]
                after[version].transactions.contains(digest) <==> {
                    ||| before.contains_key(version) && before[version].transactions.contains(
                        digest,
                    )
                    ||| exists|i: int|
                        0 <= i < withdraws.len() && (#[trigger] withdraws[i]).tx_digest == digest
                }
            &&& forall|account: ObjectID| #[trigger]
                after[version].accounts.contains(account) <==> {
                    ||| before.contains_key(version) && before[version].accounts.contains(account)
                    ||| exists|i: int| asks(state, version, withdraws, account, i)
                }
        }),
{
    let before = state.pending;
    let after = state.enqueue(version, withdraws, balance).pending;
    assert forall|account: ObjectID| #[trigger]
        after[version].accounts.contains(account) <==> {
            ||| before.contains_key(version) && before[version].accounts.contains(account)
            ||| exists|i: int| asks(state, version, withdraws, account, i)
        } by {
        lemma_touched(state, version, withdraws, account);
    }
    assert forall|digest: TransactionDigest| #[trigger]
        after[version].transactions.contains(digest) <==> {
            ||| before.contains_key(version) && before[version].transactions.contains(digest)
            ||| exists|i: int|
                0 <= i < withdraws.len() && (#[trigger] withdraws[i]).tx_digest == digest
        } by {
        if digests(withdraws).contains(digest) {
            let i = digests(withdraws).index_of(digest);
            assert(withdraws[i].tx_digest == digest);
        }
        if exists|i: int|
            0 <= i < withdraws.len() && (#[trigger] withdraws[i]).tx_digest == digest {
            let i = choose|i: int|
                0 <= i < withdraws.len() && (#[trigger] withdraws[i]).tx_digest == digest;
            assert(digests(withdraws)[i] == digest);
        }
    }
}

/// The balances that an account can start out with are those that are read at the settled version.
pub proof fn law_balances_are_read<B: AccountBalanceRead>(
    balance_read: &B,
    version: SequenceNumber,
    account: ObjectID,
)
    ensures
        balances_at(balance_read, version)(account) == balance_read.account_balance(
            account,
            version,
        ),
{
}

// How the places in a list, in the new part of it and in a queue go together.

/// How many new transactions stand ahead of a place in the list.
spec fn place(
    state: SchedulerView,
    version: SequenceNumber,
    withdraws: Seq<WithdrawView>,
    i: int,
) -> nat {
    first_of(withdraws.take(i), state.seen_at(version)).len()
}

/// What the transactions of a list ask of an account.
spec fn list_requests(
    withdraws: Seq<WithdrawView>,
    version: SequenceNumber,
    account: ObjectID,
) -> Seq<Request>
    decreases withdraws.len(),
{
    if withdraws.len() == 0 {
        Seq::empty()
    } else {
        let earlier = list_requests(withdraws.drop_last(), version, account);
        if withdraws.last().reservations.contains_key(account) {
            earlier.push(
                Request {
                    accumulator_version: version,
                    amount: withdraws.last().reservations[account],
                },
            )
        } else {
            earlier
        }
    }
}

/// One transaction more is one new transaction more, or none.
proof fn lemma_first_of_next(
    state: SchedulerView,
    version: SequenceNumber,
    withdraws: Seq<WithdrawView>,
    i: int,
)
    requires
        0 <= i < withdraws.len(),
    ensures
        first_of(withdraws.take(i + 1), state.seen_at(version)) == if is_new(
            state,
            version,
            withdraws,
            i,
        ) {
            first_of(withdraws.take(i), state.seen_at(version)).push(withdraws[i])
        } else {
            first_of(withdraws.take(i), state.seen_at(version))
        },
{
    let more = withdraws.take(i + 1);
    let earlier = withdraws.take(i);
    let digest = withdraws[i].tx_digest;
    assert(more.drop_last() =~= earlier);
    assert(more.last() == withdraws[i]);
    if digests(earlier).contains(digest) {
        let j = digests(earlier).index_of(digest);
        assert(withdraws[j].tx_digest == digest);
    }
    if exists|j: int| 0 <= j < i && (#[trigger] withdraws[j]).tx_digest == digest {
        let j = choose|j: int| 0 <= j < i && (#[trigger] withdraws[j]).tx_digest == digest;
        assert(digests(earlier)[j] == digest);
    }
}

/// The new transactions of the head of a list are the first of the new ones of the list.
proof fn lemma_first_of_prefix(
    state: SchedulerView,
    version: SequenceNumber,
    withdraws: Seq<WithdrawView>,
    m: int,
    n: int,
)
    requires
        0 <= m <= n <= withdraws.len(),
    ensures
        place(state, version, withdraws, m) <= place(state, version, withdraws, n),
        first_of(withdraws.take(m), state.seen_at(version)) == first_of(
            withdraws.take(n),
            state.seen_at(version),
        ).take(place(state, version, withdraws, m) as int),
    decreases n - m,
{
    let seen = state.seen_at(version);
    if m < n {
        lemma_first_of_prefix(state, version, withdraws, m, n - 1);
        lemma_first_of_next(state, version, withdraws, n - 1);
        assert(first_of(withdraws.take(n), seen).take(
            place(state, version, withdraws, m) as int,
        ) =~= first_of(withdraws.take(n - 1), seen).take(
            place(state, version, withdraws, m) as int,
        ));
    } else {
        assert(first_of(withdraws.take(n), seen).take(
            place(state, version, withdraws, m) as int,
        ) =~= first_of(withdraws.take(n), seen));
    }
}

/// Where a new transaction stands among the new ones.
proof fn lemma_place(
    state: SchedulerView,
    version: SequenceNumber,
    withdraws: Seq<WithdrawView>,
    i: int,
)
    requires
        is_new(state, version, withdraws, i),
    ensures
        ({
            let unseen = state.unseen(version, withdraws);
            let at = place(state, version, withdraws, i) as int;
            &&& at < unseen.len() <= withdraws.len()
            &&& unseen[at] == withdraws[i]
            &&& unseen.take(at) == first_of(withdraws.take(i), state.seen_at(version))
            &&& unseen.take(at + 1) == first_of(withdraws.take(i + 1), state.seen_at(version))
            &&& digests(unseen).contains(withdraws[i].tx_digest)
            &&& digests(unseen).index_of(withdraws[i].tx_digest) == at
        }),
{
    let seen = state.seen_at(version);
    let unseen = state.unseen(version, withdraws);
    let at = place(state, version, withdraws, i) as int;
    let all = withdraws.len() as int;
    assert(withdraws.take(all) =~= withdraws);
    lemma_first_of_next(state, version, withdraws, i);
    lemma_first_of_prefix(state, version, withdraws, i, all);
    lemma_first_of_prefix(state, version, withdraws, i + 1, all);
    lemma_first_of_distinct(withdraws, seen);
    assert(unseen.take(at + 1)[at] == withdraws[i]);
    assert(digests(unseen)[at] == withdraws[i].tx_digest);
    let found = digests(unseen).index_of(withdraws[i].tx_digest);
    assert(digests(unseen)[found] == digests(unseen)[at]);
}

/// Each of the new transactions stands somewhere in the list.
proof fn lemma_place_of(
    state: SchedulerView,
    version: SequenceNumber,
    withdraws: Seq<WithdrawView>,
    n: int,
    at: int,
) -> (i: int)
    requires
        0 <= n <= withdraws.len(),
        0 <= at < place(state, version, withdraws, n),
    ensures
        0 <= i < n,
        is_new(state, version, withdraws, i),
        place(state, version, withdraws, i) == at,
    decreases n,
{
    if n == 0 {
        assert(withdraws.take(0) =~= Seq::empty());
        0
    } else {
        lemma_first_of_next(state, version, withdraws, n - 1);
        if at < place(state, version, withdraws, n - 1) {
            lemma_place_of(state, version, withdraws, n - 1, at)
        } else {
            n - 1
        }
    }
}

/// The identifiers and the requests for an account in the head of a list are the first of those in
/// the list.
proof fn lemma_ids_prefix(
    withdraws: Seq<WithdrawView>,
    version: SequenceNumber,
    first: RegistrationId,
    account: ObjectID,
    m: int,
)
    requires
        0 <= m <= withdraws.len(),
    ensures
        ({
            let ids = ids_for(withdraws, first, account);
            let some = ids_for(withdraws.take(m), first, account);
            let requests = list_requests(withdraws, version, account);
            &&& some.len() <= ids.len() == requests.len()
            &&& some == ids.take(some.len() as int)
            &&& list_requests(withdraws.take(m), version, account) == requests.take(
                some.len() as int,
            )
        }),
    decreases withdraws.len(),
{
    let ids = ids_for(withdraws, first, account);
    let requests = list_requests(withdraws, version, account);
    let some = ids_for(withdraws.take(m), first, account);
    if withdraws.len() > 0 {
        let earlier = withdraws.drop_last();
        lemma_ids_prefix(earlier, version, first, account, 0);
        if m < withdraws.len() {
            lemma_ids_prefix(earlier, version, first, account, m);
            assert(earlier.take(m) =~= withdraws.take(m));
            assert(ids.take(some.len() as int) =~= ids_for(earlier, first, account).take(
                some.len() as int,
            ));
            assert(requests.take(some.len() as int) =~= list_requests(
                earlier,
                version,
                account,
            ).take(some.len() as int));
        } else {
            assert(withdraws.take(m) =~= withdraws);
            assert(ids.take(ids.len() as int) =~= ids);
            assert(requests.take(ids.len() as int) =~= requests);
        }
    } else {
        assert(withdraws.take(m) =~= withdraws);
        assert(ids.take(0) =~= ids);
        assert(requests.take(0) =~= requests);
    }
}

/// The identifiers for an account go up, and go with what the transactions ask of it.
proof fn lemma_ids_and_requests(
    withdraws: Seq<WithdrawView>,
    version: SequenceNumber,
    first: RegistrationId,
    account: ObjectID,
)
    requires
        first + withdraws.len() <= RegistrationId::MAX,
    ensures
        ({
            let ids = ids_for(withdraws, first, account);
            let requests = list_requests(withdraws, version, account);
            &&& ids.len() == requests.len()
            &&& forall|k: int|
                0 <= k < ids.len() ==> {
                    &&& first <= #[trigger] ids[k] < first + withdraws.len()
                    &&& withdraws[ids[k] - first].reservations.contains_key(account)
                    &&& requests[k] == (Request {
                        accumulator_version: version,
                        amount: withdraws[ids[k] - first].reservations[account],
                    })
                }
            &&& forall|j: int, k: int|
                0 <= j < k < ids.len() ==> #[trigger] ids[j] < #[trigger] ids[k]
        }),
    decreases withdraws.len(),
{
    if withdraws.len() > 0 {
        lemma_ids_and_requests(withdraws.drop_last(), version, first, account);
    }
}

/// What the new transactions of the head of a list ask of an account together.
proof fn lemma_asked_before(
    state: SchedulerView,
    version: SequenceNumber,
    withdraws: Seq<WithdrawView>,
    account: ObjectID,
    n: int,
)
    requires
        0 <= n <= withdraws.len(),
    ensures
        amount_of(
            list_requests(first_of(withdraws.take(n), state.seen_at(version)), version, account),
        ) == asked_before(state, version, withdraws, account, n),
    decreases n,
{
    let seen = state.seen_at(version);
    if n > 0 {
        let some = first_of(withdraws.take(n - 1), seen);
        lemma_asked_before(state, version, withdraws, account, n - 1);
        lemma_first_of_next(state, version, withdraws, n - 1);
        if is_new(state, version, withdraws, n - 1) {
            assert(some.push(withdraws[n - 1]).drop_last() =~= some);
            let before = list_requests(some, version, account);
            if withdraws[n - 1].reservations.contains_key(account) {
                let request = Request {
                    accumulator_version: version,
                    amount: withdraws[n - 1].reservations[account],
                };
                assert(before.push(request).drop_last() =~= before);
            }
        }
    } else {
        assert(withdraws.take(0) =~= Seq::empty());
    }
}

/// What stands ahead in the queue of an account.
spec fn known_queue(state: SchedulerView, account: ObjectID) -> Seq<RegistrationId> {
    if state.accounts.contains_key(account) {
        state.accounts[account].enqueued
    } else {
        Seq::empty()
    }
}

/// Which accounts are touched by the new transactions.
proof fn lemma_touched(
    state: SchedulerView,
    version: SequenceNumber,
    withdraws: Seq<WithdrawView>,
    account: ObjectID,
)
    ensures
        accounts_touched(state.unseen(version, withdraws)).contains(account) <==> exists|i: int|
            asks(state, version, withdraws, account, i),
{
    let unseen = state.unseen(version, withdraws);
    let all = withdraws.len() as int;
    assert(withdraws.take(all) =~= withdraws);
    if accounts_touched(unseen).contains(account) {
        let at = choose|at: int| withdraws_from(unseen, at, account);
        let i = lemma_place_of(state, version, withdraws, all, at);
        lemma_place(state, version, withdraws, i);
        assert(asks(state, version, withdraws, account, i));
    }
    if exists|i: int| asks(state, version, withdraws, account, i) {
        let i = choose|i: int| asks(state, version, withdraws, account, i);
        lemma_place(state, version, withdraws, i);
        assert(withdraws_from(unseen, place(state, version, withdraws, i) as int, account));
    }
}

/// What the queue of a touched account asks before it is served.
proof fn lemma_registered_requests(
    state: SchedulerView,
    version: SequenceNumber,
    withdraws: Seq<WithdrawView>,
    balance: spec_fn(ObjectID) -> u64,
    account: ObjectID,
)
    requires
        state.wf(),
        state.has_room(withdraws),
        accounts_touched(state.unseen(version, withdraws)).contains(account),
    ensures
        ({
            let registered = state.register(version, withdraws, balance);
            let unseen = state.unseen(version, withdraws);
            let known = known_queue(state, account);
            let new = list_requests(unseen, version, account);
            let asked = registered.requests_of(account);
            let settled = state.last_known_settled_version;
            let before = registered.accounts[account];
            &&& registered.accounts.contains_key(account)
            &&& before.enqueued == known + ids_for(unseen, state.next_registration, account)
            &&& before.last_known_min_balance == start_balance(state, balance, account)
            &&& before.reserved == if state.accounts.contains_key(account) {
                state.accounts[account].reserved
            } else {
                Map::empty()
            }
            &&& asked.len() == known.len() + new.len()
            &&& known.len() == 0 ==> asked == new
            &&& known.len() > 0 ==> !need_not_wait(
                before.last_known_min_balance,
                asked,
                settled,
                0,
            )
        }),
{
    let registered = state.register(version, withdraws, balance);
    let unseen = state.unseen(version, withdraws);
    let first = state.next_registration;
    let known = known_queue(state, account);
    let ids = ids_for(unseen, first, account);
    let new = list_requests(unseen, version, account);
    let asked = registered.requests_of(account);
    let settled = state.last_known_settled_version;
    lemma_first_of_distinct(withdraws, state.seen_at(version));
    lemma_ids_and_requests(unseen, version, first, account);
    assert(registered.accounts[account].enqueued =~= known + ids);
    if known.len() == 0 {
        assert forall|k: int| 0 <= k < asked.len() implies asked[k] == new[k] by {
            assert(registered.accounts[account].enqueued[k] == ids[k]);
            let i = ids[k] - first;
            assert(unseen[i].reservations.contains_key(account));
            assert(!unseen[i].reservations.is_empty());
        }
        assert(asked =~= new);
    } else {
        let head = known[0];
        assert(state.is_queued(account, head));
        assert(state.is_pending(account, head));
        assert(state.is_blocked(account, settled));
        assert(registered.accounts[account].enqueued[0] == head);
        assert(asked[0] == state.requests_of(account)[0]);
        let one = asked.take(1);
        assert(one.drop_last() =~= Seq::empty());
        assert(amount_of(one.drop_last()) == 0);
        assert(amount_of(one) == asked[0].amount);
    }
}

/// The place of a new transaction in the queue of one of its accounts.
proof fn lemma_queue_place(
    state: SchedulerView,
    version: SequenceNumber,
    withdraws: Seq<WithdrawView>,
    account: ObjectID,
    i: int,
)
    requires
        state.has_room(withdraws),
        asks(state, version, withdraws, account, i),
    ensures
        ({
            let unseen = state.unseen(version, withdraws);
            let ids = ids_for(unseen, state.next_registration, account);
            let new = list_requests(unseen, version, account);
            let before = list_requests(
                first_of(withdraws.take(i), state.seen_at(version)),
                version,
                account,
            );
            let at = before.len() as int;
            &&& at < ids.len() == new.len()
            &&& ids[at] == (state.next_registration + place(state, version, withdraws, i))
            &&& new.take(at) == before
            &&& new.take(at + 1) == list_requests(
                first_of(withdraws.take(i + 1), state.seen_at(version)),
                version,
                account,
            )
            &&& amount_of(new.take(at + 1)) == asked_before(
                state,
                version,
                withdraws,
                account,
                i + 1,
            )
            &&& accounts_touched(unseen).contains(account)
        }),
{
    let unseen = state.unseen(version, withdraws);
    let first = state.next_registration;
    let m = place(state, version, withdraws, i) as int;
    let seen = state.seen_at(version);
    lemma_place(state, version, withdraws, i);
    lemma_ids_prefix(unseen, version, first, account, m);
    lemma_ids_prefix(unseen, version, first, account, m + 1);
    lemma_ids_prefix(unseen.take(m), version, first, account, 0);
    lemma_ids_prefix(unseen.take(m + 1), version, first, account, 0);
    assert(unseen.take(m + 1).drop_last() =~= unseen.take(m));
    assert(unseen.take(m + 1).last() == withdraws[i]);
    let ids = ids_for(unseen, first, account);
    let some = ids_for(unseen.take(m), first, account);
    let more = ids_for(unseen.take(m + 1), first, account);
    assert(more == some.push((first + m) as RegistrationId));
    assert(more[some.len() as int] == ids[some.len() as int]);
    lemma_asked_before(state, version, withdraws, account, i + 1);
    assert(withdraws_from(unseen, m, account));
}

/// An account grants a new transaction exactly if it does not make it wait.
proof fn lemma_grants_new(
    state: SchedulerView,
    version: SequenceNumber,
    withdraws: Seq<WithdrawView>,
    balance: spec_fn(ObjectID) -> u64,
    account: ObjectID,
    i: int,
)
    requires
        state.wf(),
        state.has_room(withdraws),
        asks(state, version, withdraws, account, i),
    ensures
        ({
            let registered = state.register(version, withdraws, balance);
            let settled = state.last_known_settled_version;
            let id = (state.next_registration + place(
                state,
                version,
                withdraws,
                i,
            )) as RegistrationId;
            let at = list_requests(
                first_of(withdraws.take(i), state.seen_at(version)),
                version,
                account,
            ).len();
            let count = registered.accounts[account].granted_count(
                registered.requests_of(account),
                settled,
            );
            &&& registered.is_queued(account, id)
            &&& registered.is_granted(account, id, settled) == grants_new(
                state,
                version,
                withdraws,
                balance,
                account,
                i,
            )
            &&& known_queue(state, account).len() == 0 ==> grants_new(
                state,
                version,
                withdraws,
                balance,
                account,
                i,
            ) == (at < count)
        }),
{
    let registered = state.register(version, withdraws, balance);
    let settled = state.last_known_settled_version;
    let unseen = state.unseen(version, withdraws);
    let known = known_queue(state, account);
    let new = list_requests(unseen, version, account);
    let ids = ids_for(unseen, state.next_registration, account);
    let id = (state.next_registration + place(state, version, withdraws, i)) as RegistrationId;
    let at = list_requests(
        first_of(withdraws.take(i), state.seen_at(version)),
        version,
        account,
    ).len() as int;
    lemma_queue_place(state, version, withdraws, account, i);
    lemma_place(state, version, withdraws, i);
    lemma_registered_requests(state, version, withdraws, balance, account);
    lemma_register_keeps_wf(state, version, withdraws, balance);
    lemma_ids_and_requests(unseen, version, state.next_registration, account);
    let before = registered.accounts[account];
    let queue = before.enqueued;
    let asked = registered.requests_of(account);
    let start = before.last_known_min_balance;
    assert(queue[known.len() + at] == ids[at]);
    assert(queue.contains(id));
    assert(queue.index_of(id) == known.len() + at);
    lemma_granted_is_not_waiting(registered, account, id, settled);
    lemma_reserve_all_takes_prefix(before, asked, settled);
    if known.len() > 0 {
        if none_waits_before(start, asked, settled, known.len() + at + 1) {
            assert(need_not_wait(start, asked, settled, 0));
        }
    } else {
        assert(new[at].accumulator_version == version) by {
            assert(ids[at] == id);
        }
        if none_waits_before(start, asked, settled, at + 1) {
            assert(need_not_wait(start, asked, settled, at));
        }
        if version <= settled || amount_of(new.take(at + 1)) <= start {
            assert forall|j: int| 0 <= j < at + 1 implies #[trigger] need_not_wait(
                start,
                asked,
                settled,
                j,
            ) by {
                assert(ids[j] >= state.next_registration);
                lemma_amounts_grow(new, version, j + 1, at + 1);
            }
            assert(none_waits_before(start, asked, settled, at + 1));
        }
        let count = before.granted_count(asked, settled) as int;
        let left = registered.served(account, settled).enqueued;
        if at >= count {
            assert(left[at - count] == id);
        }
        if left.contains(id) {
            let k = left.index_of(id);
            assert(queue[k + count] == id);
        }
    }
}

/// What an account grants to the new transactions of the head of a list.
proof fn lemma_granted_before(
    state: SchedulerView,
    version: SequenceNumber,
    withdraws: Seq<WithdrawView>,
    balance: spec_fn(ObjectID) -> u64,
    account: ObjectID,
    n: int,
)
    requires
        state.wf(),
        state.has_room(withdraws),
        0 <= n <= withdraws.len(),
        accounts_touched(state.unseen(version, withdraws)).contains(account),
    ensures
        ({
            let registered = state.register(version, withdraws, balance);
            let count = registered.accounts[account].granted_count(
                registered.requests_of(account),
                state.last_known_settled_version,
            ) as int;
            let new = list_requests(state.unseen(version, withdraws), version, account);
            let some = list_requests(
                first_of(withdraws.take(n), state.seen_at(version)),
                version,
                account,
            ).len() as int;
            let granted = granted_before(state, version, withdraws, balance, account, n);
            &&& known_queue(state, account).len() > 0 ==> granted == 0
            &&& known_queue(state, account).len() == 0 ==> {
                &&& some <= new.len()
                &&& granted == amount_of(
                    new.take(
                        if some < count {
                            some
                        } else {
                            count
                        },
                    ),
                )
            }
        }),
    decreases n,
{
    let registered = state.register(version, withdraws, balance);
    let settled = state.last_known_settled_version;
    let before = registered.accounts[account];
    let asked = registered.requests_of(account);
    let count = before.granted_count(asked, settled) as int;
    let new = list_requests(state.unseen(version, withdraws), version, account);
    let seen = state.seen_at(version);
    lemma_registered_requests(state, version, withdraws, balance, account);
    lemma_reserve_all_takes_prefix(before, asked, settled);
    if n > 0 {
        let i = n - 1;
        lemma_granted_before(state, version, withdraws, balance, account, i);
        lemma_first_of_next(state, version, withdraws, i);
        let some = first_of(withdraws.take(i), seen);
        if is_new(state, version, withdraws, i) {
            assert(some.push(withdraws[i]).drop_last() =~= some);
        }
        if asks(state, version, withdraws, account, i) {
            lemma_queue_place(state, version, withdraws, account, i);
            lemma_grants_new(state, version, withdraws, balance, account, i);
            let at = list_requests(some, version, account).len() as int;
            assert(new.take(at + 1).drop_last() =~= new.take(at));
            assert(new.take(at + 1).last() == new[at]);
            lemma_place(state, version, withdraws, i);
            lemma_ids_and_requests(
                state.unseen(version, withdraws),
                version,
                state.next_registration,
                account,
            );
            let ids = ids_for(
                state.unseen(version, withdraws),
                state.next_registration,
                account,
            );
            assert(ids[at] == state.next_registration + place(state, version, withdraws, i));
            assert(new[at].amount == withdraws[i].reservations[account]);
        }
    } else {
        assert(withdraws.take(0) =~= Seq::empty());
        assert(new.take(0) =~= Seq::empty());
    }
}

/// All that is asked at one version is asked at that version.
proof fn lemma_one_version(requests: Seq<Request>, version: SequenceNumber, at: SequenceNumber)
    requires
        forall|i: int|
            0 <= i < requests.len() ==> (#[trigger] requests[i]).accumulator_version == version,
    ensures
        amount_at(requests, at) == if at == version {
            amount_of(requests)
        } else {
            0
        },
    decreases requests.len(),
{
    if requests.len() > 0 {
        let earlier = requests.drop_last();
        assert forall|i: int| 0 <= i < earlier.len() implies (
        #[trigger] earlier[i]).accumulator_version == version by {
            assert(earlier[i] == requests[i]);
        }
        lemma_one_version(earlier, version, at);
        assert(requests[requests.len() - 1].accumulator_version == version);
    }
}

/// The queue of an account can be served exactly if the list fits.
proof fn lemma_list_fits(
    state: SchedulerView,
    version: SequenceNumber,
    withdraws: Seq<WithdrawView>,
    balance: spec_fn(ObjectID) -> u64,
    account: ObjectID,
)
    requires
        state.wf(),
        state.has_room(withdraws),
        accounts_touched(state.unseen(version, withdraws)).contains(account),
    ensures
        ({
            let registered = state.register(version, withdraws, balance);
            let settled = state.last_known_settled_version;
            &&& list_fits(state, version, withdraws, balance, account) == registered.can_serve(
                account,
                settled,
            )
            &&& registered.can_serve(account, settled)
                == registered.accounts[account].reserve_all_fits(
                registered.requests_of(account),
                settled,
            )
        }),
{
    let registered = state.register(version, withdraws, balance);
    let settled = state.last_known_settled_version;
    let unseen = state.unseen(version, withdraws);
    let all = withdraws.len() as int;
    assert(withdraws.take(all) =~= withdraws);
    lemma_first_of_distinct(withdraws, state.seen_at(version));
    lemma_registered_requests(state, version, withdraws, balance, account);
    lemma_granted_before(state, version, withdraws, balance, account, all);
    lemma_ids_and_requests(unseen, version, state.next_registration, account);
    lemma_some_granted(state, version, withdraws, balance, account);
    let before = registered.accounts[account];
    let start = before.last_known_min_balance;
    let asked = registered.requests_of(account);
    let new = list_requests(unseen, version, account);
    let ids = ids_for(unseen, state.next_registration, account);
    let count = before.granted_count(asked, settled) as int;
    let granted = granted_before(state, version, withdraws, balance, account, all);
    law_serving_is_possible(before, asked, settled);
    lemma_none_waits_up_to(before, asked, settled);
    assert(amount_in(before.reserved, version) == reserved_in(state, account, version));
    if known_queue(state, account).len() > 0 {
        assert(count == 0) by {
            if count > 0 {
                assert(need_not_wait(start, asked, settled, 0));
            }
        }
    } else {
        assert forall|k: int| 0 <= k < asked.len() implies (
        #[trigger] asked[k]).accumulator_version == version by {
            assert(ids[k] >= state.next_registration);
        }
        if count > 0 {
            assert(amount_of(asked.take(count)) == granted);
            assert forall|k: int| 0 <= k < count implies (
            #[trigger] asked.take(count)[k]).accumulator_version == version by {
                assert(asked.take(count)[k] == asked[k]);
            }
            lemma_one_version(asked.take(count), version, version);
            if numbers_fit(before, asked, settled) {
                assert(none_waits_before(start, asked, settled, count));
                assert(amount_in(before.reserved, asked[0].accumulator_version) + amount_at(
                    asked.take(count),
                    asked[0].accumulator_version,
                ) <= u64::MAX);
            }
            if start - granted >= i128::MIN && reserved_in(state, account, version) + granted
                <= u64::MAX {
                assert forall|n: int|
                    0 <= n <= asked.len() && #[trigger] none_waits_before(
                        start,
                        asked,
                        settled,
                        n,
                    ) implies {
                    &&& n > 0 ==> start - amount_of(asked.take(n)) >= i128::MIN
                    &&& forall|i: int|
                        0 <= i < n ==> amount_in(
                            before.reserved,
                            (#[trigger] asked[i]).accumulator_version,
                        ) + amount_at(asked.take(n), asked[i].accumulator_version) <= u64::MAX
                } by {
                    assert(n <= count);
                    lemma_amounts_grow(asked, version, n, count);
                }
            }
        }
    }
    if count == 0 {
        assert forall|n: int|
            0 <= n <= asked.len() && #[trigger] none_waits_before(
                start,
                asked,
                settled,
                n,
            ) implies n == 0 by {}
        assert(numbers_fit(before, asked, settled));
    }
}

/// A head of a queue that need not wait is granted, and no longer one.
proof fn lemma_none_waits_up_to(
    account: AccountView,
    requests: Seq<Request>,
    settled: SequenceNumber,
)
    requires
        requests.len() == account.enqueued.len(),
    ensures
        ({
            let count = account.granted_count(requests, settled);
            let start = account.last_known_min_balance;
            &&& count <= requests.len()
            &&& none_waits_before(start, requests, settled, count as int)
            &&& forall|n: int|
                0 <= n <= requests.len() && #[trigger] none_waits_before(
                    start,
                    requests,
                    settled,
                    n,
                ) ==> n <= count
        }),
{
    let count = account.granted_count(requests, settled) as int;
    let start = account.last_known_min_balance;
    lemma_reserve_all_takes_prefix(account, requests, settled);
    assert forall|i: int| 0 <= i < requests.len() implies #[trigger] need_not_wait(
        start,
        requests,
        settled,
        i,
    ) == is_secured(account, requests, settled, i) by {}
    assert forall|i: int| 0 <= i < count implies #[trigger] need_not_wait(
        start,
        requests,
        settled,
        i,
    ) by {
        law_granted_when_secured(account, requests, settled, i);
        assert(is_secured(account, requests, settled, i));
    }
    assert forall|n: int|
        0 <= n <= requests.len() && #[trigger] none_waits_before(
            start,
            requests,
            settled,
            n,
        ) implies n <= count by {
        if n > count {
            law_granted_when_secured(account, requests, settled, count);
            assert forall|j: int| 0 <= j <= count implies #[trigger] is_secured(
                account,
                requests,
                settled,
                j,
            ) by {
                assert(need_not_wait(start, requests, settled, j));
            }
        }
    }
}

/// An account grants something exactly if it does not make every new transaction wait.
proof fn lemma_some_granted(
    state: SchedulerView,
    version: SequenceNumber,
    withdraws: Seq<WithdrawView>,
    balance: spec_fn(ObjectID) -> u64,
    account: ObjectID,
)
    requires
        state.wf(),
        state.has_room(withdraws),
        accounts_touched(state.unseen(version, withdraws)).contains(account),
    ensures
        ({
            let registered = state.register(version, withdraws, balance);
            let count = registered.accounts[account].granted_count(
                registered.requests_of(account),
                state.last_known_settled_version,
            );
            count > 0 <==> exists|i: int| #[trigger]
                asks(state, version, withdraws, account, i) && grants_new(
                    state,
                    version,
                    withdraws,
                    balance,
                    account,
                    i,
                )
        }),
{
    let registered = state.register(version, withdraws, balance);
    let settled = state.last_known_settled_version;
    let unseen = state.unseen(version, withdraws);
    let all = withdraws.len() as int;
    let before = registered.accounts[account];
    let asked = registered.requests_of(account);
    let count = before.granted_count(asked, settled) as int;
    assert(withdraws.take(all) =~= withdraws);
    lemma_first_of_distinct(withdraws, state.seen_at(version));
    lemma_registered_requests(state, version, withdraws, balance, account);
    lemma_ids_and_requests(unseen, version, state.next_registration, account);
    lemma_none_waits_up_to(before, asked, settled);
    if exists|i: int| #[trigger]
        asks(state, version, withdraws, account, i) && grants_new(
            state,
            version,
            withdraws,
            balance,
            account,
            i,
        ) {
        let i = choose|i: int| #[trigger]
            asks(state, version, withdraws, account, i) && grants_new(
                state,
                version,
                withdraws,
                balance,
                account,
                i,
            );
        lemma_grants_new(state, version, withdraws, balance, account, i);
    }
    if count > 0 {
        if known_queue(state, account).len() > 0 {
            assert(need_not_wait(before.last_known_min_balance, asked, settled, 0));
        }
        let ids = ids_for(unseen, state.next_registration, account);
        let at = ids[0] - state.next_registration;
        let i = lemma_place_of(state, version, withdraws, all, at);
        lemma_place(state, version, withdraws, i);
        assert(asks(state, version, withdraws, account, i));
        lemma_queue_place(state, version, withdraws, account, i);
        lemma_grants_new(state, version, withdraws, balance, account, i);
        let place_in = list_requests(
            first_of(withdraws.take(i), state.seen_at(version)),
            version,
            account,
        ).len() as int;
        if place_in > 0 {
            assert(ids[0] < ids[place_in]);
        }
    }
}

} // verus!
