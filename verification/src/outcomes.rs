//! What serving queues and processing settlements come to, told of the accounts, the waiting
//! transactions and the settlement alone.
use crate::account_laws::{
    amount_of, is_secured, law_granted_when_secured, law_serving_takes_what_it_grants,
};
use crate::account_state::{lemma_reserve_all_takes_prefix, requests, AccountView, Request};
use crate::laws::law_ready_when_every_account_grants;
use crate::model::{
    lemma_serve_restores_wf, lemma_settle_balances_keeps_wf, lemma_wf_keeps, SchedulerView,
};
use crate::registration::RegistrationView;
use crate::types::{ObjectID, RegistrationId, SequenceNumber, SettlementView};
use vstd::prelude::*;

verus! {

// One account.

/// The sum of the amounts that are asked for at one version.
pub open spec fn amount_at(requests: Seq<Request>, version: SequenceNumber) -> int
    decreases requests.len(),
{
    if requests.len() == 0 {
        0
    } else {
        amount_at(requests.drop_last(), version) + if requests.last().accumulator_version
            == version {
            requests.last().amount as int
        } else {
            0
        }
    }
}

/// The request need not wait: the version that it depends on is settled, or `balance` covers it
/// and all those ahead of it.
pub open spec fn need_not_wait(
    balance: int,
    requests: Seq<Request>,
    settled: SequenceNumber,
    i: int,
) -> bool {
    requests[i].accumulator_version <= settled || amount_of(requests.take(i + 1)) <= balance
}

/// The requests ahead of place `n`, all of them, need not wait.
pub open spec fn none_waits_before(
    balance: int,
    requests: Seq<Request>,
    settled: SequenceNumber,
    n: int,
) -> bool {
    forall|i: int| 0 <= i < n ==> #[trigger] need_not_wait(balance, requests, settled, i)
}

/// What is reserved at a version; nothing where there is no entry.
pub open spec fn amount_in(reserved: Map<SequenceNumber, u64>, version: SequenceNumber) -> int {
    if reserved.contains_key(version) {
        reserved[version] as int
    } else {
        0
    }
}

/// The first `n` requests of a queue have been granted, and no more could be: they left the queue,
/// their amounts left the guaranteed minimum balance, and are reserved at their versions.
pub open spec fn is_served(
    before: AccountView,
    requests: Seq<Request>,
    settled: SequenceNumber,
    n: int,
    after: AccountView,
) -> bool {
    let granted = requests.take(n);
    &&& 0 <= n <= requests.len()
    &&& none_waits_before(before.last_known_min_balance, requests, settled, n)
    &&& n < requests.len() ==> !need_not_wait(before.last_known_min_balance, requests, settled, n)
    &&& after.enqueued == before.enqueued.skip(n)
    &&& after.last_known_min_balance == before.last_known_min_balance - amount_of(granted)
    &&& forall|version: SequenceNumber| #[trigger]
        after.reserved.contains_key(version) <==> before.reserved.contains_key(version) || exists|
            i: int,
        |
            0 <= i < n && (#[trigger] requests[i]).accumulator_version == version
    &&& forall|version: SequenceNumber|
        amount_in(after.reserved, version) == #[trigger] amount_in(before.reserved, version)
            + amount_at(granted, version)
}

/// The numbers that an account comes to when the requests that need not wait are granted can be
/// represented.
pub open spec fn numbers_fit(
    before: AccountView,
    requests: Seq<Request>,
    settled: SequenceNumber,
) -> bool {
    forall|n: int|
        0 <= n <= requests.len() && #[trigger] none_waits_before(
            before.last_known_min_balance,
            requests,
            settled,
            n,
        ) ==> {
            &&& n > 0 ==> before.last_known_min_balance - amount_of(requests.take(n)) >= i128::MIN
            &&& forall|i: int|
                0 <= i < n ==> amount_in(
                    before.reserved,
                    (#[trigger] requests[i]).accumulator_version,
                ) + amount_at(requests.take(n), requests[i].accumulator_version) <= u64::MAX
        }
}

/// The amount at a version is made of that of the head of the queue and of the rest.
proof fn lemma_amount_at_head(requests: Seq<Request>, version: SequenceNumber)
    requires
        requests.len() > 0,
    ensures
        amount_at(requests, version) == amount_at(requests.drop_first(), version)
            + if requests[0].accumulator_version == version {
            requests[0].amount as int
        } else {
            0
        },
    decreases requests.len(),
{
    if requests.len() > 1 {
        lemma_amount_at_head(requests.drop_last(), version);
        assert(requests.drop_last().drop_first() =~= requests.drop_first().drop_last());
    } else {
        assert(requests.drop_last() =~= Seq::empty());
        assert(requests.drop_first() =~= Seq::empty());
    }
}

/// The amount of a queue is made of that of its head and of the rest.
proof fn lemma_amount_of_first(requests: Seq<Request>)
    requires
        requests.len() > 0,
    ensures
        amount_of(requests) == requests[0].amount + amount_of(requests.drop_first()),
    decreases requests.len(),
{
    if requests.len() > 1 {
        lemma_amount_of_first(requests.drop_last());
        assert(requests.drop_last().drop_first() =~= requests.drop_first().drop_last());
    } else {
        assert(requests.drop_last() =~= Seq::empty());
        assert(requests.drop_first() =~= Seq::empty());
    }
}

/// What the head of a queue and the `n` requests behind it ask for.
proof fn lemma_head_and_rest(requests: Seq<Request>, n: int, version: SequenceNumber)
    requires
        0 <= n < requests.len(),
    ensures
        amount_of(requests.take(n + 1)) == requests[0].amount + amount_of(
            requests.drop_first().take(n),
        ),
        amount_at(requests.take(n + 1), version) == amount_at(
            requests.drop_first().take(n),
            version,
        ) + if requests[0].accumulator_version == version {
            requests[0].amount as int
        } else {
            0
        },
{
    lemma_amount_of_first(requests.take(n + 1));
    lemma_amount_at_head(requests.take(n + 1), version);
    assert(requests.take(n + 1).drop_first() =~= requests.drop_first().take(n));
}

/// Longer heads of a queue ask for no less.
pub proof fn lemma_amounts_grow(requests: Seq<Request>, version: SequenceNumber, m: int, n: int)
    requires
        0 <= m <= n <= requests.len(),
    ensures
        0 <= amount_of(requests.take(m)) <= amount_of(requests.take(n)),
        0 <= amount_at(requests.take(m), version) <= amount_at(requests.take(n), version),
    decreases n,
{
    if n > 0 {
        assert(requests.take(n).drop_last() =~= requests.take(n - 1));
        lemma_amounts_grow(
            requests,
            version,
            if m < n {
                m
            } else {
                n - 1
            },
            n - 1,
        );
    }
}

/// Behind a head that is granted the rest waits as it did.
proof fn lemma_behind_head(account: AccountView, requests: Seq<Request>, settled: SequenceNumber)
    requires
        requests.len() > 0,
    ensures
        forall|i: int|
            0 <= i < requests.len() - 1 ==> #[trigger] need_not_wait(
                account.last_known_min_balance - requests[0].amount,
                requests.drop_first(),
                settled,
                i,
            ) == need_not_wait(account.last_known_min_balance, requests, settled, i + 1),
        need_not_wait(account.last_known_min_balance, requests, settled, 0) == (
        requests[0].accumulator_version <= settled || requests[0].amount
            <= account.last_known_min_balance),
{
    let rest = requests.drop_first();
    assert forall|i: int| 0 <= i < requests.len() - 1 implies #[trigger] need_not_wait(
        account.last_known_min_balance - requests[0].amount,
        rest,
        settled,
        i,
    ) == need_not_wait(account.last_known_min_balance, requests, settled, i + 1) by {
        lemma_amount_of_first(requests.take(i + 2));
        assert(requests.take(i + 2).drop_first() =~= rest.take(i + 1));
    }
    lemma_amount_of_first(requests.take(1));
    assert(requests.take(1).drop_first() =~= Seq::empty());
}

/// Serving the queue of an account grants its requests from the head on, for as long as they need
/// not wait. What is granted leaves the queue and the guaranteed minimum balance, and is reserved
/// at the version that the request depends on.
pub proof fn law_serving_outcome(
    account: AccountView,
    requests: Seq<Request>,
    settled: SequenceNumber,
)
    requires
        requests.len() == account.enqueued.len(),
        account.reserve_all_fits(requests, settled),
    ensures
        is_served(
            account,
            requests,
            settled,
            account.granted_count(requests, settled) as int,
            account.reserve_all(requests, settled),
        ),
    decreases requests.len(),
{
    let count = account.granted_count(requests, settled) as int;
    let after = account.reserve_all(requests, settled);
    lemma_reserve_all_takes_prefix(account, requests, settled);
    law_serving_takes_what_it_grants(account, requests, settled);
    assert forall|i: int| 0 <= i < requests.len() implies #[trigger] need_not_wait(
        account.last_known_min_balance,
        requests,
        settled,
        i,
    ) == is_secured(account, requests, settled, i) by {}
    if count < requests.len() {
        law_granted_when_secured(account, requests, settled, count);
        if need_not_wait(account.last_known_min_balance, requests, settled, count) {
            assert forall|j: int| 0 <= j <= count implies #[trigger] is_secured(
                account,
                requests,
                settled,
                j,
            ) by {
                if j < count {
                    law_granted_when_secured(account, requests, settled, j);
                } else {
                    assert(need_not_wait(account.last_known_min_balance, requests, settled, j));
                }
            }
        }
    }
    assert forall|i: int| 0 <= i < count implies #[trigger] need_not_wait(
        account.last_known_min_balance,
        requests,
        settled,
        i,
    ) by {
        law_granted_when_secured(account, requests, settled, i);
        assert(is_secured(account, requests, settled, i));
    }
    lemma_serving_reserves(account, requests, settled);
}

/// What serving a queue reserves.
proof fn lemma_serving_reserves(
    account: AccountView,
    requests: Seq<Request>,
    settled: SequenceNumber,
)
    requires
        account.reserve_all_fits(requests, settled),
        account.granted_count(requests, settled) <= requests.len(),
    ensures
        ({
            let count = account.granted_count(requests, settled) as int;
            let after = account.reserve_all(requests, settled);
            &&& forall|version: SequenceNumber| #[trigger]
                after.reserved.contains_key(version) <==> account.reserved.contains_key(version)
                    || exists|i: int|
                    0 <= i < count && (#[trigger] requests[i]).accumulator_version == version
            &&& forall|version: SequenceNumber|
                amount_in(after.reserved, version) == #[trigger] amount_in(
                    account.reserved,
                    version,
                ) + amount_at(requests.take(count), version)
        }),
    decreases requests.len(),
{
    let count = account.granted_count(requests, settled) as int;
    let after = account.reserve_all(requests, settled);
    if requests.len() > 0 && account.grants(requests[0], settled) {
        let next = account.reserve(requests[0]);
        let rest = requests.drop_first();
        lemma_serving_reserves(next, rest, settled);
        assert(after == next.reserve_all(rest, settled));
        assert(count == next.granted_count(rest, settled) + 1);
        assert forall|version: SequenceNumber| #[trigger]
            after.reserved.contains_key(version) <==> account.reserved.contains_key(version)
                || exists|i: int|
                0 <= i < count && (#[trigger] requests[i]).accumulator_version == version by {
            if exists|i: int|
                0 <= i < count - 1 && (#[trigger] rest[i]).accumulator_version == version {
                let i = choose|i: int|
                    0 <= i < count - 1 && (#[trigger] rest[i]).accumulator_version == version;
                assert(requests[i + 1].accumulator_version == version);
            }
            if exists|i: int|
                0 <= i < count && (#[trigger] requests[i]).accumulator_version == version {
                let i = choose|i: int|
                    0 <= i < count && (#[trigger] requests[i]).accumulator_version == version;
                if i > 0 {
                    assert(rest[i - 1].accumulator_version == version);
                }
            }
            assert(next.reserved.contains_key(version) <==> account.reserved.contains_key(version)
                || requests[0].accumulator_version == version);
        }
        assert forall|version: SequenceNumber|
            amount_in(after.reserved, version) == #[trigger] amount_in(account.reserved, version)
                + amount_at(requests.take(count), version) by {
            lemma_amount_at_head(requests.take(count), version);
            assert(requests.take(count).drop_first() =~= rest.take(count - 1));
            assert(amount_in(after.reserved, version) == amount_in(next.reserved, version)
                + amount_at(rest.take(count - 1), version));
        }
    } else {
        assert(requests.take(0) =~= Seq::empty());
    }
}

/// The queue of an account can be served exactly if the numbers that this comes to can be
/// represented: there is no other reason not to.
pub proof fn law_serving_is_possible(
    account: AccountView,
    requests: Seq<Request>,
    settled: SequenceNumber,
)
    ensures
        account.reserve_all_fits(requests, settled) <==> numbers_fit(account, requests, settled),
    decreases requests.len(),
{
    let balance = account.last_known_min_balance;
    if requests.len() > 0 {
        let head = requests[0];
        let rest = requests.drop_first();
        lemma_behind_head(account, requests, settled);
        assert(account.grants(head, settled) == need_not_wait(balance, requests, settled, 0));
        if account.grants(head, settled) {
            let next = account.reserve(head);
            law_serving_is_possible(next, rest, settled);
            assert forall|n: int| 0 <= n <= rest.len() implies #[trigger] none_waits_before(
                next.last_known_min_balance,
                rest,
                settled,
                n,
            ) == none_waits_before(balance, requests, settled, n + 1) by {
                if none_waits_before(next.last_known_min_balance, rest, settled, n) {
                    assert forall|i: int| 0 <= i < n + 1 implies #[trigger] need_not_wait(
                        balance,
                        requests,
                        settled,
                        i,
                    ) by {
                        if i > 0 {
                            assert(need_not_wait(
                                next.last_known_min_balance,
                                rest,
                                settled,
                                i - 1,
                            ));
                        }
                    }
                }
                if none_waits_before(balance, requests, settled, n + 1) {
                    assert forall|i: int| 0 <= i < n implies #[trigger] need_not_wait(
                        next.last_known_min_balance,
                        rest,
                        settled,
                        i,
                    ) by {
                        assert(need_not_wait(balance, requests, settled, i + 1));
                    }
                }
            }
            if numbers_fit(account, requests, settled) {
                assert(rest.take(0) =~= Seq::empty());
                assert(none_waits_before(next.last_known_min_balance, rest, settled, 0));
                assert(none_waits_before(balance, requests, settled, 1));
                lemma_head_and_rest(requests, 0, head.accumulator_version);
                assert(requests[0].accumulator_version == head.accumulator_version);
                assert(account.reserve_fits(head));
                assert forall|n: int|
                    0 <= n <= rest.len() && #[trigger] none_waits_before(
                        next.last_known_min_balance,
                        rest,
                        settled,
                        n,
                    ) implies {
                    &&& n > 0 ==> next.last_known_min_balance - amount_of(rest.take(n))
                        >= i128::MIN
                    &&& forall|i: int|
                        0 <= i < n ==> amount_in(
                            next.reserved,
                            (#[trigger] rest[i]).accumulator_version,
                        ) + amount_at(rest.take(n), rest[i].accumulator_version) <= u64::MAX
                } by {
                    assert(none_waits_before(balance, requests, settled, n + 1));
                    lemma_head_and_rest(requests, n, head.accumulator_version);
                    assert forall|i: int| 0 <= i < n implies amount_in(
                        next.reserved,
                        (#[trigger] rest[i]).accumulator_version,
                    ) + amount_at(rest.take(n), rest[i].accumulator_version) <= u64::MAX by {
                        let version = rest[i].accumulator_version;
                        assert(requests[i + 1].accumulator_version == version);
                        lemma_head_and_rest(requests, n, version);
                    }
                }
                assert(numbers_fit(next, rest, settled));
            }
            if account.reserve_all_fits(requests, settled) {
                assert(numbers_fit(next, rest, settled));
                assert forall|n: int|
                    0 <= n <= requests.len() && #[trigger] none_waits_before(
                        balance,
                        requests,
                        settled,
                        n,
                    ) implies {
                    &&& n > 0 ==> balance - amount_of(requests.take(n)) >= i128::MIN
                    &&& forall|i: int|
                        0 <= i < n ==> amount_in(
                            account.reserved,
                            (#[trigger] requests[i]).accumulator_version,
                        ) + amount_at(requests.take(n), requests[i].accumulator_version)
                            <= u64::MAX
                } by {
                    if n > 0 {
                        let m = n - 1;
                        assert(none_waits_before(
                            next.last_known_min_balance,
                            rest,
                            settled,
                            m,
                        ) == none_waits_before(balance, requests, settled, m + 1));
                        lemma_head_and_rest(requests, m, head.accumulator_version);
                        if m == 0 {
                            assert(rest.take(0) =~= Seq::empty());
                        }
                        assert forall|i: int| 0 <= i < n implies amount_in(
                            account.reserved,
                            (#[trigger] requests[i]).accumulator_version,
                        ) + amount_at(requests.take(n), requests[i].accumulator_version)
                            <= u64::MAX by {
                            let version = requests[i].accumulator_version;
                            lemma_head_and_rest(requests, m, version);
                            if exists|k: int|
                                0 <= k < m && (#[trigger] rest[k]).accumulator_version
                                    == version {
                                let k = choose|k: int|
                                    0 <= k < m && (#[trigger] rest[k]).accumulator_version
                                        == version;
                                assert(amount_in(next.reserved, rest[k].accumulator_version)
                                    + amount_at(rest.take(m), rest[k].accumulator_version)
                                    <= u64::MAX);
                            } else {
                                lemma_no_amount_at(rest.take(m), version);
                                if i > 0 {
                                    assert(rest[i - 1].accumulator_version == version);
                                }
                            }
                        }
                    }
                }
            }
        } else {
            assert forall|n: int|
                0 <= n <= requests.len() && #[trigger] none_waits_before(
                    balance,
                    requests,
                    settled,
                    n,
                ) implies n == 0 by {
                if n > 0 {
                    assert(need_not_wait(balance, requests, settled, 0));
                }
            }
        }
    }
}

/// Where no request depends on a version nothing is asked for at it.
proof fn lemma_no_amount_at(requests: Seq<Request>, version: SequenceNumber)
    requires
        forall|i: int|
            0 <= i < requests.len() ==> (#[trigger] requests[i]).accumulator_version != version,
    ensures
        amount_at(requests, version) == 0,
    decreases requests.len(),
{
    if requests.len() > 0 {
        let earlier = requests.drop_last();
        assert forall|i: int| 0 <= i < earlier.len() implies (
        #[trigger] earlier[i]).accumulator_version != version by {
            assert(earlier[i] == requests[i]);
        }
        lemma_no_amount_at(earlier, version);
        assert(requests[requests.len() - 1].accumulator_version != version);
    }
}

/// What a queue asks of an account is what its transactions have to reserve there, in the order of
/// the queue, each at the version that it depends on.
pub proof fn law_requests_are_reservations(
    registrations: Map<RegistrationId, RegistrationView>,
    account: ObjectID,
    queue: Seq<RegistrationId>,
)
    ensures
        requests(registrations, account, queue).len() == queue.len(),
        forall|i: int|
            0 <= i < queue.len() ==> {
                let asked = #[trigger] requests(registrations, account, queue)[i];
                let waits = registrations[queue[i]];
                &&& asked.accumulator_version == waits.accumulator_version
                &&& asked.amount == waits.pending_accounts[account]
            },
{
}

/// An account can go through a settlement exactly if it has something reserved at the version that
/// is due, if any, and the numbers that it comes to can be represented.
pub proof fn law_account_settlement_is_possible(
    account: AccountView,
    due: Option<SequenceNumber>,
    change: int,
    requests: Seq<Request>,
    settled: SequenceNumber,
)
    ensures
        ({
            let given_back = if due is Some {
                amount_in(account.reserved, due->Some_0)
            } else {
                0
            };
            let after = AccountView {
                enqueued: account.enqueued,
                reserved: if due is Some {
                    account.reserved.remove(due->Some_0)
                } else {
                    account.reserved
                },
                last_known_min_balance: account.last_known_min_balance + given_back + change,
            };
            account.settle_fits(due, change) && account.settle(due, change).reserve_all_fits(
                requests,
                settled,
            ) <==> {
                &&& due matches Some(version) ==> {
                    &&& account.reserved.contains_key(version)
                    &&& account.last_known_min_balance + given_back <= i128::MAX
                }
                &&& i128::MIN <= after.last_known_min_balance <= i128::MAX
                &&& numbers_fit(after, requests, settled)
            }
        }),
{
    law_serving_is_possible(account.settle(due, change), requests, settled);
}

// A settlement.

/// What the transactions in the queue of an account have still to reserve there, in the order of
/// the queue, each with the version that it depends on.
pub open spec fn asked_of(state: SchedulerView, account: ObjectID) -> Seq<Request> {
    let queue = state.accounts[account].enqueued;
    Seq::new(
        queue.len(),
        |i: int|
            Request {
                accumulator_version: state.registrations[queue[i]].accumulator_version,
                amount: state.registrations[queue[i]].pending_accounts[account],
            },
    )
}

/// Transactions that were scheduled at the version that is settled withdraw from the account.
pub open spec fn is_due(
    state: SchedulerView,
    settlement: SettlementView,
    account: ObjectID,
) -> bool {
    let version = settlement.old_accumulator_version;
    state.pending.contains_key(version) && state.pending[version].accounts.contains(account)
}

/// The account once what was reserved at the settled version is given back, where it is due, and
/// the balance change of the settlement is applied, where it has one for the account.
pub open spec fn settled_account(
    state: SchedulerView,
    settlement: SettlementView,
    account: ObjectID,
) -> AccountView {
    let version = settlement.old_accumulator_version;
    let before = state.accounts[account];
    let given_back = if is_due(state, settlement, account) {
        amount_in(before.reserved, version)
    } else {
        0
    };
    let change = if settlement.balance_changes.contains_key(account) {
        settlement.balance_changes[account] as int
    } else {
        0
    };
    AccountView {
        enqueued: before.enqueued,
        reserved: if is_due(state, settlement, account) {
            before.reserved.remove(version)
        } else {
            before.reserved
        },
        last_known_min_balance: before.last_known_min_balance + given_back + change,
    }
}

/// After the settlement, neither the transaction nor one ahead of it in the queue of the account
/// has to wait there.
pub open spec fn settlement_grants(
    state: SchedulerView,
    settlement: SettlementView,
    account: ObjectID,
    id: RegistrationId,
) -> bool {
    let queue = state.accounts[account].enqueued;
    exists|k: int|
        0 <= k < queue.len() && #[trigger] queue[k] == id && none_waits_before(
            settled_account(state, settlement, account).last_known_min_balance,
            asked_of(state, account),
            settlement.new_accumulator_version,
            k + 1,
        )
}

/// Nothing stands in the way of a settlement as far as the account goes: where it is due it has
/// something reserved, and all numbers that it comes to can be represented.
pub open spec fn settlement_fits(
    state: SchedulerView,
    settlement: SettlementView,
    account: ObjectID,
) -> bool {
    let version = settlement.old_accumulator_version;
    let before = state.accounts[account];
    let after = settled_account(state, settlement, account);
    &&& is_due(state, settlement, account) ==> {
        &&& state.accounts.contains_key(account)
        &&& before.reserved.contains_key(version)
        &&& before.last_known_min_balance + before.reserved[version] <= i128::MAX
    }
    &&& state.accounts.contains_key(account) ==> {
        &&& i128::MIN <= after.last_known_min_balance <= i128::MAX
        &&& numbers_fit(after, asked_of(state, account), settlement.new_accumulator_version)
    }
}

/// What the account is before its queue is served, and what its queue asks.
proof fn lemma_settled_account(state: SchedulerView, settlement: SettlementView, account: ObjectID)
    requires
        state.accounts.contains_key(account),
    ensures
        state.settle_balances(settlement).accounts[account] == settled_account(
            state,
            settlement,
            account,
        ),
        state.settle_balances(settlement).requests_of(account) == asked_of(state, account),
        state.due_version(settlement, account) == if is_due(state, settlement, account) {
            Some(settlement.old_accumulator_version)
        } else {
            None
        },
{
    let middle = state.settle_balances(settlement);
    assert(middle.requests_of(account) =~= asked_of(state, account));
}

/// A settlement can be processed exactly if every account that is due has something reserved at
/// the settled version, and all balances and reservations that result can be represented. Nothing
/// else stands in its way, however many balances it changes.
pub proof fn law_settlement_is_possible(state: SchedulerView, settlement: SettlementView)
    requires
        state.wf(),
    ensures
        state.can_settle(settlement) <==> (forall|account: ObjectID| #[trigger]
            settlement_fits(state, settlement, account)),
{
    let settled = settlement.new_accumulator_version;
    assert forall|account: ObjectID| #[trigger]
        settlement_fits(state, settlement, account) == (state.asked_by(settlement).contains(account)
            ==> state.can_settle_account(settlement, account)) by {
        if state.accounts.contains_key(account) {
            lemma_settled_account(state, settlement, account);
            law_serving_is_possible(
                settled_account(state, settlement, account),
                asked_of(state, account),
                settled,
            );
        } else {
            assert(state.due_version(settlement, account) is Some <==> is_due(
                state,
                settlement,
                account,
            ));
        }
    }
    if state.can_settle(settlement) {
        assert forall|account: ObjectID| #[trigger] settlement_fits(state, settlement, account) by {
            if state.asked_by(settlement).contains(account) {
                assert(state.can_settle_account(settlement, account));
            }
        }
    }
    if forall|account: ObjectID| #[trigger] settlement_fits(state, settlement, account) {
        assert forall|account: ObjectID| #[trigger]
            state.asked_by(settlement).contains(account) implies state.can_settle_account(
            settlement,
            account,
        ) by {
            assert(settlement_fits(state, settlement, account));
        }
    }
}

/// What a settlement does to an account: it gives back what is due, applies the balance change
/// that it has for the account, and then grants from the head of the queue what need not wait. The
/// account is forgotten where nothing waits and nothing is reserved then. A settlement adds no
/// account, and moves the settled version on to its new one.
pub proof fn law_settlement_outcome(
    state: SchedulerView,
    settlement: SettlementView,
    account: ObjectID,
)
    requires
        state.wf(),
        forall|other: ObjectID| #[trigger] settlement_fits(state, settlement, other),
    ensures
        ({
            let after = state.process_settlement(settlement);
            &&& after.last_known_settled_version == settlement.new_accumulator_version
            &&& after.pending == state.pending.remove(settlement.old_accumulator_version)
            &&& after.next_registration == state.next_registration
            &&& after.settlements == state.settlements
            &&& after.expected_version == state.expected_version
            &&& after.accounts.contains_key(account) ==> state.accounts.contains_key(account)
            &&& state.accounts.contains_key(account) ==> exists|n: int, left: AccountView|
                {
                    &&& #[trigger] is_served(
                        settled_account(state, settlement, account),
                        asked_of(state, account),
                        settlement.new_accumulator_version,
                        n,
                        left,
                    )
                    &&& after.accounts.contains_key(account) <==> left.enqueued.len() > 0
                        || exists|version: SequenceNumber|
                        left.reserved.contains_key(version)
                    &&& after.accounts.contains_key(account) ==> after.accounts[account] == left
                }
        }),
{
    let settled = settlement.new_accumulator_version;
    let middle = state.settle_balances(settlement);
    let after = state.process_settlement(settlement);
    if state.accounts.contains_key(account) {
        let before = settled_account(state, settlement, account);
        let asked = asked_of(state, account);
        lemma_settled_account(state, settlement, account);
        assert(settlement_fits(state, settlement, account));
        law_serving_is_possible(before, asked, settled);
        law_serving_outcome(before, asked, settled);
        let n = before.granted_count(asked, settled) as int;
        let left = before.reserve_all(asked, settled);
        assert(is_served(before, asked, settled, n, left));
        assert(left == middle.served(account, settled));
        lemma_empty(left);
    }
}

/// An account is empty where nothing waits and nothing is reserved.
proof fn lemma_empty(account: AccountView)
    ensures
        account.is_empty() <==> account.enqueued.len() == 0 && !(exists|version: SequenceNumber|
            account.reserved.contains_key(version)),
{
    if !(exists|version: SequenceNumber| account.reserved.contains_key(version)) {
        assert(account.reserved.dom() =~= Set::empty());
    }
}

/// Which transactions a settlement tells that they are ready: those that wait for nothing more,
/// since none of the accounts that they waited for makes them wait now. Every other transaction
/// goes on to wait for the accounts that do, with the amounts that it asked of them.
pub proof fn law_settlement_tells(
    state: SchedulerView,
    settlement: SettlementView,
    id: RegistrationId,
)
    requires
        state.wf(),
    ensures
        state.ready_at_settlement(settlement).contains(id) <==> {
            &&& state.registrations.contains_key(id)
            &&& forall|account: ObjectID| #[trigger]
                state.registrations[id].pending_accounts.contains_key(account)
                    ==> settlement_grants(state, settlement, account, id)
        },
        ({
            let before = state.registrations[id];
            let after = state.process_settlement(settlement).registrations[id];
            &&& state.process_settlement(settlement).registrations.contains_key(id) <==> {
                &&& state.registrations.contains_key(id)
                &&& !state.ready_at_settlement(settlement).contains(id)
            }
            &&& state.process_settlement(settlement).registrations.contains_key(id) ==> {
                &&& after.accumulator_version == before.accumulator_version
                &&& after.result == before.result
                &&& forall|account: ObjectID| #[trigger]
                    after.pending_accounts.contains_key(account) <==> {
                        &&& before.pending_accounts.contains_key(account)
                        &&& !settlement_grants(state, settlement, account, id)
                    }
                &&& forall|account: ObjectID| #[trigger]
                    after.pending_accounts.contains_key(account)
                        ==> after.pending_accounts[account] == before.pending_accounts[account]
            }
        }),
{
    let settled = settlement.new_accumulator_version;
    let middle = state.settle_balances(settlement);
    lemma_settle_balances_keeps_wf(state, settlement);
    if state.registrations.contains_key(id) {
        let pending = state.registrations[id].pending_accounts;
        law_ready_when_every_account_grants(middle, state.asked_by(settlement), settled, id);
        assert forall|account: ObjectID| #[trigger] pending.contains_key(account) implies {
            &&& state.asked_by(settlement).contains(account)
            &&& middle.is_granted(account, id, settled) == settlement_grants(
                state,
                settlement,
                account,
                id,
            )
        } by {
            assert(state.is_pending(account, id));
            assert(state.is_queued(account, id));
            lemma_settled_account(state, settlement, account);
            lemma_granted_is_not_waiting(middle, account, id, settled);
        }
    }
}

/// A queue grants a transaction exactly if neither it nor one ahead of it has to wait.
pub proof fn lemma_granted_is_not_waiting(
    state: SchedulerView,
    account: ObjectID,
    id: RegistrationId,
    settled: SequenceNumber,
)
    requires
        state.queues_match(),
        state.is_queued(account, id),
    ensures
        ({
            let queue = state.accounts[account].enqueued;
            let balance = state.accounts[account].last_known_min_balance;
            let asked = state.requests_of(account);
            &&& state.is_granted(account, id, settled) <==> none_waits_before(
                balance,
                asked,
                settled,
                queue.index_of(id) + 1,
            )
            &&& state.is_granted(account, id, settled) <==> exists|k: int|
                0 <= k < queue.len() && #[trigger] queue[k] == id && none_waits_before(
                    balance,
                    asked,
                    settled,
                    k + 1,
                )
        }),
{
    let before = state.accounts[account];
    let queue = before.enqueued;
    let balance = before.last_known_min_balance;
    let asked = state.requests_of(account);
    let count = before.granted_count(asked, settled) as int;
    let k = queue.index_of(id);
    let left = state.served(account, settled).enqueued;
    lemma_reserve_all_takes_prefix(before, asked, settled);
    law_granted_when_secured(before, asked, settled, k);
    assert forall|i: int| 0 <= i < asked.len() implies #[trigger] need_not_wait(
        balance,
        asked,
        settled,
        i,
    ) == is_secured(before, asked, settled, i) by {}
    if none_waits_before(balance, asked, settled, k + 1) {
        assert forall|j: int| 0 <= j <= k implies #[trigger] is_secured(
            before,
            asked,
            settled,
            j,
        ) by {
            assert(need_not_wait(balance, asked, settled, j));
        }
    }
    if k >= count {
        assert(left[k - count] == id);
    }
    if left.contains(id) {
        let m = left.index_of(id);
        assert(queue[m + count] == id);
    }
    if k < count {
        assert forall|i: int| 0 <= i < k + 1 implies #[trigger] need_not_wait(
            balance,
            asked,
            settled,
            i,
        ) by {
            assert(is_secured(before, asked, settled, i));
        }
    }
}

// The settlements in their turn.

/// A settlement that has arrived waits under the version that it settles, in place of one that
/// waited there before, and nothing else changes.
pub proof fn law_settlement_arrives(state: SchedulerView, settlement: SettlementView)
    ensures
        state.receive_settlement(settlement) == (SchedulerView {
            settlements: state.settlements.insert(
                settlement.old_accumulator_version,
                settlement,
            ),
            ..state
        }),
{
}

/// As long as the settlement whose turn it is has arrived and nothing stands in its way, it is
/// processed, the turn passes on to the one that settles its new version, and the transactions
/// that it makes ready are told.
pub proof fn law_settlement_in_turn_is_processed(state: SchedulerView)
    requires
        state.wf(),
        state.settlements.contains_key(state.expected_version),
        forall|account: ObjectID| #[trigger]
            settlement_fits(state, state.settlements[state.expected_version], account),
    ensures
        ({
            let settlement = state.settlements[state.expected_version];
            let taken = SchedulerView {
                settlements: state.settlements.remove(state.expected_version),
                expected_version: settlement.new_accumulator_version,
                ..state
            };
            let next = taken.process_settlement(settlement);
            &&& !state.is_stuck()
            &&& next.last_known_settled_version == settlement.new_accumulator_version
            &&& state.process_settlements() == next.process_settlements()
            &&& state.ready_at_settlements() == taken.ready_at_settlement(settlement).union(
                next.ready_at_settlements(),
            )
        }),
{
    let settlement = state.settlements[state.expected_version];
    let taken = SchedulerView {
        settlements: state.settlements.remove(state.expected_version),
        expected_version: settlement.new_accumulator_version,
        ..state
    };
    lemma_taken_wf(state);
    assert(taken == state.take_settlement());
    assert forall|account: ObjectID| #[trigger] settlement_fits(taken, settlement, account) by {
        assert(settlement_fits(state, settlement, account));
        lemma_same_settlement(state, taken, settlement, account);
    }
    law_settlement_is_possible(taken, settlement);
}

/// Where the settlement whose turn it is has not arrived, or something stands in its way, nothing
/// is processed; it is stuck in the second case.
pub proof fn law_settlements_wait_for_their_turn(state: SchedulerView)
    requires
        state.wf(),
        state.settlements.contains_key(state.expected_version) ==> exists|account: ObjectID|
            !settlement_fits(state, state.settlements[state.expected_version], account),
    ensures
        state.is_stuck() == state.settlements.contains_key(state.expected_version),
        state.process_settlements() == state,
        state.ready_at_settlements() == Set::<RegistrationId>::empty(),
{
    if state.settlements.contains_key(state.expected_version) {
        let settlement = state.settlements[state.expected_version];
        let account = choose|account: ObjectID| !settlement_fits(state, settlement, account);
        let taken = state.take_settlement();
        lemma_taken_wf(state);
        lemma_same_settlement(state, taken, settlement, account);
        law_settlement_is_possible(taken, settlement);
        assert(!settlement_fits(taken, settlement, account));
    }
}

/// Processing goes on until the settlement whose turn it is has not arrived, or something stands
/// in its way.
pub proof fn law_processing_stops_late(state: SchedulerView)
    requires
        state.wf(),
    ensures
        ({
            let after = state.process_settlements();
            after.settlements.contains_key(after.expected_version) ==> exists|account: ObjectID|
                !settlement_fits(after, after.settlements[after.expected_version], account)
        }),
    decreases state.settlements.len(),
{
    if state.settlements.contains_key(state.expected_version) {
        let settlement = state.settlements[state.expected_version];
        if forall|account: ObjectID| #[trigger] settlement_fits(state, settlement, account) {
            law_settlement_in_turn_is_processed(state);
            lemma_taken_wf(state);
            let taken = state.take_settlement();
            lemma_settle_balances_keeps_wf(taken, settlement);
            lemma_serve_restores_wf(taken.settle_balances(settlement), taken.asked_by(settlement));
            law_processing_stops_late(taken.process_settlement(settlement));
        } else {
            let account = choose|account: ObjectID| !settlement_fits(state, settlement, account);
            assert(!settlement_fits(state, settlement, account));
            law_settlements_wait_for_their_turn(state);
        }
    } else {
        law_settlements_wait_for_their_turn(state);
    }
}

/// Taking the settlement whose turn it is off those that wait keeps a scheduler well-formed.
proof fn lemma_taken_wf(state: SchedulerView)
    requires
        state.wf(),
        state.settlements.contains_key(state.expected_version),
    ensures
        state.take_settlement().wf(),
{
    let taken = state.take_settlement();
    assert(taken.settlements.dom() =~= state.settlements.dom().remove(state.expected_version));
    lemma_wf_keeps(state, taken);
}

/// The settlements that wait play no part in whether one fits.
proof fn lemma_same_settlement(
    state: SchedulerView,
    other: SchedulerView,
    settlement: SettlementView,
    account: ObjectID,
)
    requires
        other.accounts == state.accounts,
        other.registrations == state.registrations,
        other.pending == state.pending,
    ensures
        settlement_fits(other, settlement, account) == settlement_fits(state, settlement, account),
{
    assert(asked_of(other, account) =~= asked_of(state, account));
}

// Other facts of the same kind.

/// Serving the queue of an account schedules its transactions from the head on, for as long as
/// neither they nor those ahead of them have to wait.
pub proof fn law_scheduled_transactions_need_not_wait(
    state: SchedulerView,
    account: ObjectID,
    settled: SequenceNumber,
    k: int,
)
    requires
        state.queues_match(),
        state.accounts.contains_key(account),
        0 <= k < state.accounts[account].enqueued.len(),
    ensures
        ({
            let scheduled = state.granted_queue(account, settled);
            &&& scheduled.is_prefix_of(state.accounts[account].enqueued)
            &&& k < scheduled.len() <==> none_waits_before(
                state.accounts[account].last_known_min_balance,
                asked_of(state, account),
                settled,
                k + 1,
            )
        }),
{
    let before = state.accounts[account];
    let asked = state.requests_of(account);
    let id = before.enqueued[k];
    let count = before.granted_count(asked, settled) as int;
    let left = state.served(account, settled).enqueued;
    assert(asked =~= asked_of(state, account));
    assert(state.is_queued(account, id));
    assert(before.enqueued.index_of(id) == k);
    lemma_granted_is_not_waiting(state, account, id, settled);
    lemma_reserve_all_takes_prefix(before, asked, settled);
    if k >= count {
        assert(left[k - count] == id);
    }
    if left.contains(id) {
        let m = left.index_of(id);
        assert(before.enqueued[m + count] == id);
    }
}

/// A scheduler starts out at the settled version, with nothing waiting, noted or arrived.
pub proof fn law_scheduler_starts_empty(version: SequenceNumber)
    ensures
        ({
            let state = SchedulerView::init(version);
            &&& state.last_known_settled_version == version
            &&& state.expected_version == version
            &&& forall|account: ObjectID| !(#[trigger] state.accounts.contains_key(account))
            &&& forall|id: RegistrationId| !(#[trigger] state.registrations.contains_key(id))
            &&& forall|at: SequenceNumber| !(#[trigger] state.pending.contains_key(at))
            &&& forall|at: SequenceNumber| !(#[trigger] state.settlements.contains_key(at))
            &&& state.wf()
        }),
{
}

} // verus!
