//! What holds of an account, whatever its queue asks for.
use crate::account_state::{AccountView, Request};
use crate::types::SequenceNumber;
use vstd::prelude::*;

verus! {

/// The sum of the amounts that are reserved, over all versions.
pub open spec fn total(reserved: Map<SequenceNumber, u64>) -> int
    decreases reserved.dom().len(),
    when reserved.dom().finite()
{
    if reserved.dom().len() == 0 {
        0
    } else {
        let version = reserved.dom().choose();
        reserved[version] + total(reserved.remove(version))
    }
}

/// The balance that the account had at the most recent settlement: the guaranteed minimum balance
/// and all that has been reserved since.
pub open spec fn settled_balance(account: AccountView) -> int {
    account.last_known_min_balance + total(account.reserved)
}

/// The total is made of the amount at any one version and of the rest.
proof fn lemma_total_at(reserved: Map<SequenceNumber, u64>, version: SequenceNumber)
    requires
        reserved.dom().finite(),
        reserved.contains_key(version),
    ensures
        total(reserved) == reserved[version] + total(reserved.remove(version)),
    decreases reserved.dom().len(),
{
    let other = reserved.dom().choose();
    assert(reserved.dom().contains(other));
    assert(reserved.remove(other).dom() =~= reserved.dom().remove(other));
    if other != version {
        lemma_total_at(reserved.remove(other), version);
        assert(reserved.remove(version).dom() =~= reserved.dom().remove(version));
        lemma_total_at(reserved.remove(version), other);
        assert(reserved.remove(other).remove(version) =~= reserved.remove(version).remove(other));
    }
}

/// A larger amount at one version makes the total larger by as much.
proof fn lemma_total_insert(
    reserved: Map<SequenceNumber, u64>,
    version: SequenceNumber,
    amount: u64,
)
    requires
        reserved.dom().finite(),
    ensures
        reserved.insert(version, amount).dom().finite(),
        total(reserved.insert(version, amount)) == total(reserved.remove(version)) + amount,
{
    let more = reserved.insert(version, amount);
    assert(more.dom() =~= reserved.dom().insert(version));
    lemma_total_at(more, version);
    assert(more.remove(version) =~= reserved.remove(version));
}

/// Granting a request takes its amount off the guaranteed minimum balance and adds it to what is
/// reserved: the settled balance that the two stand for is the same.
pub proof fn law_reserving_keeps_settled_balance(account: AccountView, request: Request)
    requires
        account.reserved.dom().finite(),
        account.reserve_fits(request),
    ensures
        account.reserve(request).reserved.dom().finite(),
        settled_balance(account.reserve(request)) == settled_balance(account),
{
    let version = request.accumulator_version;
    lemma_total_insert(
        account.reserved,
        version,
        (account.reserved_at(version) + request.amount) as u64,
    );
    if account.reserved.contains_key(version) {
        lemma_total_at(account.reserved, version);
    } else {
        assert(account.reserved.remove(version) =~= account.reserved);
    }
}

/// Serving a queue keeps the settled balance, however many requests are granted.
pub proof fn law_serving_keeps_settled_balance(
    account: AccountView,
    requests: Seq<Request>,
    settled: SequenceNumber,
)
    requires
        account.reserved.dom().finite(),
        account.reserve_all_fits(requests, settled),
    ensures
        account.reserve_all(requests, settled).reserved.dom().finite(),
        settled_balance(account.reserve_all(requests, settled)) == settled_balance(account),
    decreases requests.len(),
{
    if requests.len() > 0 && account.grants(requests[0], settled) {
        law_reserving_keeps_settled_balance(account, requests[0]);
        law_serving_keeps_settled_balance(
            account.reserve(requests[0]),
            requests.drop_first(),
            settled,
        );
    }
}

/// Serving a queue reserves at finitely many versions more.
pub proof fn lemma_serving_keeps_finite(
    account: AccountView,
    requests: Seq<Request>,
    settled: SequenceNumber,
)
    requires
        account.reserved.dom().finite(),
    ensures
        account.reserve_all(requests, settled).reserved.dom().finite(),
    decreases requests.len(),
{
    if requests.len() > 0 && account.grants(requests[0], settled) {
        let next = account.reserve(requests[0]);
        assert(next.reserved.dom() =~= account.reserved.dom().insert(
            requests[0].accumulator_version,
        ));
        lemma_serving_keeps_finite(next, requests.drop_first(), settled);
    }
}

/// A settlement moves the settled balance by the change that it brings, and by that alone: what it
/// gives back was part of the settled balance before.
pub proof fn law_settling_moves_settled_balance(
    account: AccountView,
    due: Option<SequenceNumber>,
    change: int,
)
    requires
        account.reserved.dom().finite(),
    ensures
        account.settle(due, change).reserved.dom().finite(),
        settled_balance(account.settle(due, change)) == settled_balance(account) + change,
{
    if let Some(version) = due {
        if account.reserved.contains_key(version) {
            lemma_total_at(account.reserved, version);
        } else {
            assert(account.reserved.remove(version) =~= account.reserved);
        }
        assert(account.reserved.remove(version).dom() =~= account.reserved.dom().remove(version));
    }
}

/// Settling a version undoes a reservation made at it: what is left is as if the version had been
/// settled without it.
pub proof fn law_settling_undoes_reserving(account: AccountView, request: Request)
    requires
        account.reserve_fits(request),
    ensures
        account.reserve(request).settle_version(request.accumulator_version) == (AccountView {
            enqueued: account.enqueued.drop_first(),
            ..account.settle_version(request.accumulator_version)
        }),
{
    let version = request.accumulator_version;
    assert(account.reserve(request).reserved.remove(version) =~= account.reserved.remove(version));
}

/// Settling a version undoes all reservations made at it, however many: what is left is as if the
/// version had been settled without them, but for the queue.
pub proof fn law_settling_undoes_serving(
    account: AccountView,
    requests: Seq<Request>,
    settled: SequenceNumber,
    version: SequenceNumber,
)
    requires
        account.reserve_all_fits(requests, settled),
        forall|i: int|
            0 <= i < requests.len() ==> (#[trigger] requests[i]).accumulator_version == version,
    ensures
        account.reserve_all(requests, settled).settle_version(version) == (AccountView {
            enqueued: account.reserve_all(requests, settled).enqueued,
            ..account.settle_version(version)
        }),
        !account.reserved.contains_key(version) ==> account.settle_version(version) == account,
    decreases requests.len(),
{
    if !account.reserved.contains_key(version) {
        assert(account.reserved.remove(version) =~= account.reserved);
    }
    if requests.len() > 0 && account.grants(requests[0], settled) {
        let rest = requests.drop_first();
        assert(requests[0].accumulator_version == version);
        assert forall|i: int| 0 <= i < rest.len() implies (#[trigger] rest[i]).accumulator_version
            == version by {
            assert(rest[i] == requests[i + 1]);
        }
        law_settling_undoes_reserving(account, requests[0]);
        law_settling_undoes_serving(account.reserve(requests[0]), rest, settled, version);
    }
}

/// The sum of the amounts that are asked for.
pub open spec fn amount_of(requests: Seq<Request>) -> int
    decreases requests.len(),
{
    if requests.len() == 0 {
        0
    } else {
        amount_of(requests.drop_last()) + requests.last().amount
    }
}

/// The request is secured, given those ahead of it in the queue: the version that it depends on is
/// settled, or the guaranteed minimum balance covers it and all of those.
pub open spec fn is_secured(
    account: AccountView,
    requests: Seq<Request>,
    settled: SequenceNumber,
    i: int,
) -> bool {
    requests[i].accumulator_version <= settled || amount_of(requests.take(i + 1))
        <= account.last_known_min_balance
}

/// The amount of a queue is made of that of its head and of the rest.
proof fn lemma_amount_of_head(requests: Seq<Request>)
    requires
        requests.len() > 0,
    ensures
        amount_of(requests) == requests[0].amount + amount_of(requests.drop_first()),
    decreases requests.len(),
{
    if requests.len() > 1 {
        lemma_amount_of_head(requests.drop_last());
        assert(requests.drop_last().drop_first() =~= requests.drop_first().drop_last());
    } else {
        assert(requests.drop_last() =~= Seq::empty());
        assert(requests.drop_first() =~= Seq::empty());
    }
}

/// Once the head of a queue is granted, the rest is secured as it was behind it.
proof fn lemma_secured_behind_head(
    account: AccountView,
    requests: Seq<Request>,
    settled: SequenceNumber,
    i: int,
)
    requires
        0 < i < requests.len(),
    ensures
        is_secured(account.reserve(requests[0]), requests.drop_first(), settled, i - 1)
            == is_secured(account, requests, settled, i),
{
    let rest = requests.drop_first();
    lemma_amount_of_head(requests.take(i + 1));
    assert(requests.take(i + 1).drop_first() =~= rest.take(i));
}

/// A request is granted exactly if it, and each one ahead of it, is secured.
pub proof fn law_granted_when_secured(
    account: AccountView,
    requests: Seq<Request>,
    settled: SequenceNumber,
    i: int,
)
    requires
        0 <= i < requests.len(),
    ensures
        i < account.granted_count(requests, settled) <==> (forall|j: int|
            0 <= j <= i ==> #[trigger] is_secured(account, requests, settled, j)),
    decreases i,
{
    lemma_amount_of_head(requests.take(1));
    assert(requests.take(1).drop_first() =~= Seq::empty());
    assert(is_secured(account, requests, settled, 0) == account.grants(requests[0], settled));
    if i > 0 && account.grants(requests[0], settled) {
        let next = account.reserve(requests[0]);
        let rest = requests.drop_first();
        law_granted_when_secured(next, rest, settled, i - 1);
        if forall|j: int| 0 <= j <= i ==> #[trigger] is_secured(account, requests, settled, j) {
            assert forall|j: int| 0 <= j <= i - 1 implies #[trigger] is_secured(
                next,
                rest,
                settled,
                j,
            ) by {
                lemma_secured_behind_head(account, requests, settled, j + 1);
                assert(is_secured(account, requests, settled, j + 1));
            }
        }
        if i < account.granted_count(requests, settled) {
            assert forall|j: int| 0 <= j <= i implies #[trigger] is_secured(
                account,
                requests,
                settled,
                j,
            ) by {
                if j > 0 {
                    lemma_secured_behind_head(account, requests, settled, j);
                    assert(is_secured(next, rest, settled, j - 1));
                }
            }
        }
    }
}

/// Serving a queue takes what it grants, and no more, off the guaranteed minimum balance.
pub proof fn law_serving_takes_what_it_grants(
    account: AccountView,
    requests: Seq<Request>,
    settled: SequenceNumber,
)
    ensures
        account.reserve_all(requests, settled).last_known_min_balance
            == account.last_known_min_balance - amount_of(
            requests.take(account.granted_count(requests, settled) as int),
        ),
    decreases requests.len(),
{
    lemma_granted_count_bounded(account, requests, settled);
    let granted = requests.take(account.granted_count(requests, settled) as int);
    if requests.len() > 0 && account.grants(requests[0], settled) {
        let next = account.reserve(requests[0]);
        let rest = requests.drop_first();
        law_serving_takes_what_it_grants(next, rest, settled);
        lemma_granted_count_bounded(next, rest, settled);
        lemma_amount_of_head(granted);
        assert(granted.drop_first() =~= rest.take(next.granted_count(rest, settled) as int));
    } else {
        assert(granted =~= Seq::empty());
    }
}

/// As long as no request depends on a settled version, serving the queue never takes the
/// guaranteed minimum balance below zero: what is granted ahead of a settlement is covered.
pub proof fn law_granted_ahead_is_covered(
    account: AccountView,
    requests: Seq<Request>,
    settled: SequenceNumber,
)
    requires
        account.last_known_min_balance >= 0,
        forall|i: int|
            0 <= i < requests.len() ==> (#[trigger] requests[i]).accumulator_version > settled,
    ensures
        0 <= account.reserve_all(requests, settled).last_known_min_balance
            <= account.last_known_min_balance,
    decreases requests.len(),
{
    if requests.len() > 0 && account.grants(requests[0], settled) {
        let rest = requests.drop_first();
        assert forall|i: int| 0 <= i < rest.len() implies (#[trigger] rest[i]).accumulator_version
            > settled by {
            assert(rest[i] == requests[i + 1]);
        }
        assert(requests[0].accumulator_version > settled);
        law_granted_ahead_is_covered(account.reserve(requests[0]), rest, settled);
    }
}

/// Serving a queue stops only before a request that has to wait: its version is not settled yet,
/// and what is left does not cover it.
pub proof fn law_serving_stops_at_uncovered(
    account: AccountView,
    requests: Seq<Request>,
    settled: SequenceNumber,
)
    requires
        account.granted_count(requests, settled) < requests.len(),
    ensures
        ({
            let next = requests[account.granted_count(requests, settled) as int];
            &&& next.accumulator_version > settled
            &&& next.amount > account.reserve_all(requests, settled).last_known_min_balance
        }),
    decreases requests.len(),
{
    if requests.len() > 0 && account.grants(requests[0], settled) {
        law_serving_stops_at_uncovered(
            account.reserve(requests[0]),
            requests.drop_first(),
            settled,
        );
    }
}

/// The requests at the head of a queue that depend on settled versions are all granted, whatever
/// the balance is.
pub proof fn law_settled_head_is_granted(
    account: AccountView,
    requests: Seq<Request>,
    settled: SequenceNumber,
    count: int,
)
    requires
        0 <= count <= requests.len(),
        forall|i: int|
            0 <= i < count ==> (#[trigger] requests[i]).accumulator_version <= settled,
    ensures
        account.granted_count(requests, settled) >= count,
    decreases count,
{
    if count > 0 {
        let rest = requests.drop_first();
        assert(requests[0].accumulator_version <= settled);
        assert forall|i: int| 0 <= i < count - 1 implies (#[trigger] rest[i]).accumulator_version
            <= settled by {
            assert(rest[i] == requests[i + 1]);
        }
        law_settled_head_is_granted(account.reserve(requests[0]), rest, settled, count - 1);
    }
}

/// At a later settled version no fewer requests are granted.
pub proof fn law_later_version_grants_no_fewer(
    account: AccountView,
    requests: Seq<Request>,
    earlier: SequenceNumber,
    later: SequenceNumber,
)
    requires
        earlier <= later,
    ensures
        account.granted_count(requests, earlier) <= account.granted_count(requests, later)
            <= requests.len(),
    decreases requests.len(),
{
    lemma_granted_count_bounded(account, requests, later);
    if requests.len() > 0 && account.grants(requests[0], earlier) {
        law_later_version_grants_no_fewer(
            account.reserve(requests[0]),
            requests.drop_first(),
            earlier,
            later,
        );
    }
}

/// No more requests are granted than there are.
proof fn lemma_granted_count_bounded(
    account: AccountView,
    requests: Seq<Request>,
    settled: SequenceNumber,
)
    ensures
        account.granted_count(requests, settled) <= requests.len(),
    decreases requests.len(),
{
    if requests.len() > 0 && account.grants(requests[0], settled) {
        lemma_granted_count_bounded(account.reserve(requests[0]), requests.drop_first(), settled);
    }
}

/// Once a queue has been served, serving what is left of it at the same version changes nothing.
pub proof fn law_serving_again_changes_nothing(
    account: AccountView,
    requests: Seq<Request>,
    settled: SequenceNumber,
)
    ensures
        ({
            let served = account.reserve_all(requests, settled);
            let left = requests.skip(account.granted_count(requests, settled) as int);
            &&& served.reserve_all(left, settled) == served
            &&& served.granted_count(left, settled) == 0
        }),
{
    lemma_granted_count_bounded(account, requests, settled);
    if account.granted_count(requests, settled) < requests.len() {
        law_serving_stops_at_uncovered(account, requests, settled);
    }
}

} // verus!
