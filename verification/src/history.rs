//! What holds of a scheduler after every sequence of calls.
use crate::arrival::{chain_end, is_chain};
use crate::books::{
    books_match, is_outstanding, law_books_match_at_first, law_enqueuing_keeps_books,
    law_enqueuing_keeps_order, law_only_unsettled_versions_wait, law_settlement_keeps_books,
    law_settlement_keeps_order, none_waits_beyond, queues_in_order, waits_at,
};
use crate::model::{
    accounts_touched, lemma_first_of_distinct, lemma_register_keeps_wf, lemma_serve_restores_wf,
    lemma_settle_balances_keeps_wf, lemma_wf_keeps, SchedulerView,
};
use crate::types::{ObjectID, RegistrationId, SequenceNumber, SettlementView, WithdrawView};
use vstd::prelude::*;

verus! {

/// A call to a scheduler.
pub ghost enum Call {
    /// Enqueues transactions, given the balances that are read at the time.
    Enqueue {
        version: SequenceNumber,
        withdraws: Seq<WithdrawView>,
        balance: spec_fn(ObjectID) -> u64,
    },
    /// Takes in a settlement.
    Settle { settlement: SettlementView },
}

/// The scheduler after one call. A list of transactions that cannot be enqueued changes nothing.
pub open spec fn step(state: SchedulerView, call: Call) -> SchedulerView {
    match call {
        Call::Enqueue { version, withdraws, balance } => if state.can_enqueue(
            version,
            withdraws,
            balance,
        ) {
            state.enqueue(version, withdraws, balance)
        } else {
            state
        },
        Call::Settle { settlement } => state.receive_settlement(settlement).process_settlements(),
    }
}

/// The scheduler that started at a settled version, after a sequence of calls.
pub open spec fn run(start: SequenceNumber, calls: Seq<Call>) -> SchedulerView
    decreases calls.len(),
{
    if calls.len() == 0 {
        SchedulerView::init(start)
    } else {
        step(run(start, calls.drop_last()), calls.last())
    }
}

/// The settlements that are processed in turn, in their order.
pub open spec fn processed(state: SchedulerView) -> Seq<SettlementView>
    decreases state.settlements.len(),
    when state.settlements.dom().finite()
{
    if state.has_next_settlement() && !state.is_stuck() {
        seq![state.next_settlement()] + processed(
            state.take_settlement().process_settlement(state.next_settlement()),
        )
    } else {
        Seq::empty()
    }
}

/// The settlements that one call processes, in their order.
pub open spec fn processed_by(state: SchedulerView, call: Call) -> Seq<SettlementView> {
    match call {
        Call::Enqueue { version, withdraws, balance } => Seq::empty(),
        Call::Settle { settlement } => processed(state.receive_settlement(settlement)),
    }
}

/// The settlements that a sequence of calls processes, in their order.
pub open spec fn processed_in(start: SequenceNumber, calls: Seq<Call>) -> Seq<SettlementView>
    decreases calls.len(),
{
    if calls.len() == 0 {
        Seq::empty()
    } else {
        processed_in(start, calls.drop_last()) + processed_by(
            run(start, calls.drop_last()),
            calls.last(),
        )
    }
}

/// The settlements that are taken in by a sequence of calls.
pub open spec fn received_in(calls: Seq<Call>) -> Seq<SettlementView>
    decreases calls.len(),
{
    if calls.len() == 0 {
        Seq::empty()
    } else {
        let earlier = received_in(calls.drop_last());
        match calls.last() {
            Call::Enqueue { version, withdraws, balance } => earlier,
            Call::Settle { settlement } => earlier.push(settlement),
        }
    }
}

/// The call enqueues transactions that depend on the version.
pub open spec fn enqueues_at(call: Call, version: SequenceNumber) -> bool {
    call matches Call::Enqueue { version: at, .. } && at == version
}

/// Transactions are enqueued in the order of the versions that they depend on.
pub open spec fn versions_in_order(calls: Seq<Call>) -> bool {
    forall|i: int, j: int, earlier: SequenceNumber, later: SequenceNumber|
        0 <= i < j < calls.len() && #[trigger] enqueues_at(calls[i], earlier)
            && #[trigger] enqueues_at(calls[j], later) ==> earlier <= later
}

/// Whatever has been called, all that holds of a scheduler between two calls holds.
pub proof fn law_every_history_is_well_formed(start: SequenceNumber, calls: Seq<Call>)
    ensures
        run(start, calls).wf(),
        run(start, calls).expected_version == run(start, calls).last_known_settled_version,
    decreases calls.len(),
{
    if calls.len() > 0 {
        let before = run(start, calls.drop_last());
        law_every_history_is_well_formed(start, calls.drop_last());
        match calls.last() {
            Call::Enqueue { version, withdraws, balance } => {
                if before.can_enqueue(version, withdraws, balance) && before.has_work(
                    version,
                    withdraws,
                ) {
                    lemma_register_keeps_wf(before, version, withdraws, balance);
                    lemma_serve_restores_wf(
                        before.register(version, withdraws, balance),
                        accounts_touched(before.unseen(version, withdraws)),
                    );
                }
            },
            Call::Settle { settlement } => {
                lemma_received_wf(before, settlement);
                lemma_processed_wf(before.receive_settlement(settlement));
            },
        }
    }
}

/// The settlements that are processed over a sequence of calls form a chain from the version that
/// the scheduler started at. The last one gives the settled version. Each has been taken in, and
/// none is processed more often than it was.
pub proof fn law_processed_settlements_form_a_chain(start: SequenceNumber, calls: Seq<Call>)
    ensures
        is_chain(start, processed_in(start, calls)),
        run(start, calls).last_known_settled_version == chain_end(
            start,
            processed_in(start, calls),
        ),
        processed_in(start, calls).to_multiset().subset_of(received_in(calls).to_multiset()),
{
    lemma_chain_so_far(start, calls);
    law_every_history_is_well_formed(start, calls);
    assert forall|settlement: SettlementView| #[trigger]
        processed_in(start, calls).to_multiset().count(settlement) <= received_in(
            calls,
        ).to_multiset().count(settlement) by {
        lemma_used_once(start, calls, settlement);
    }
}

/// Where transactions are enqueued in the order of the versions that they depend on, the books
/// match after every sequence of calls, the queues are in order, and only transactions wait that
/// depend on a version that is not settled yet.
pub proof fn law_books_match_after_every_history(start: SequenceNumber, calls: Seq<Call>)
    requires
        versions_in_order(calls),
    ensures
        books_match(run(start, calls)),
        queues_in_order(run(start, calls)),
        forall|id: RegistrationId| #[trigger]
            run(start, calls).registrations.contains_key(id) ==> run(
                start,
                calls,
            ).registrations[id].accumulator_version > run(start, calls).last_known_settled_version,
{
    let state = run(start, calls);
    lemma_tidy(start, calls);
    law_every_history_is_well_formed(start, calls);
    assert forall|id: RegistrationId| #[trigger]
        state.registrations.contains_key(id) implies state.registrations[id].accumulator_version
        > state.last_known_settled_version by {
        law_only_unsettled_versions_wait(state, id);
    }
}

/// Taking in a settlement keeps a scheduler well-formed.
proof fn lemma_received_wf(state: SchedulerView, settlement: SettlementView)
    requires
        state.wf(),
    ensures
        state.receive_settlement(settlement).wf(),
{
    let after = state.receive_settlement(settlement);
    assert(after.settlements.dom() =~= state.settlements.dom().insert(
        settlement.old_accumulator_version,
    ));
    lemma_wf_keeps(state, after);
}

/// Processing the settlement whose turn it is keeps a scheduler well-formed.
proof fn lemma_next_wf(state: SchedulerView)
    requires
        state.wf(),
        state.has_next_settlement(),
    ensures
        state.take_settlement().wf(),
        state.take_settlement().process_settlement(state.next_settlement()).wf(),
        state.next_settlement().old_accumulator_version == state.expected_version,
{
    let taken = state.take_settlement();
    let settlement = state.next_settlement();
    assert(taken.settlements.dom() =~= state.settlements.dom().remove(state.expected_version));
    lemma_wf_keeps(state, taken);
    lemma_settle_balances_keeps_wf(taken, settlement);
    lemma_serve_restores_wf(taken.settle_balances(settlement), taken.asked_by(settlement));
}

/// Processing settlements keeps a scheduler well-formed, and the settlements in turn.
proof fn lemma_processed_wf(state: SchedulerView)
    requires
        state.wf(),
        state.expected_version == state.last_known_settled_version,
    ensures
        state.process_settlements().wf(),
        state.process_settlements().expected_version
            == state.process_settlements().last_known_settled_version,
    decreases state.settlements.len(),
{
    if state.has_next_settlement() && !state.is_stuck() {
        lemma_next_wf(state);
        lemma_processed_wf(state.take_settlement().process_settlement(state.next_settlement()));
    }
}

/// One chain behind another is a chain.
proof fn lemma_chain_add(
    from: SequenceNumber,
    one: Seq<SettlementView>,
    other: Seq<SettlementView>,
)
    requires
        is_chain(from, one),
        is_chain(chain_end(from, one), other),
    ensures
        is_chain(from, one + other),
        chain_end(from, one + other) == chain_end(chain_end(from, one), other),
{
    let both = one + other;
    assert forall|i: int| 0 <= i < both.len() implies (
    #[trigger] both[i]).old_accumulator_version == chain_end(from, both.take(i)) by {
        if i < one.len() {
            assert(both[i] == one[i]);
            assert(both.take(i) =~= one.take(i));
        } else {
            let k = i - one.len();
            assert(both[i] == other[k]);
            assert(both.take(i) =~= one + other.take(k));
            if k > 0 {
                assert(both.take(i).last() == other.take(k).last());
            } else {
                assert(both.take(i) =~= one);
            }
        }
    }
    if other.len() > 0 {
        assert(both.last() == other.last());
    } else {
        assert(both =~= one);
    }
}

/// The settlements that are processed in turn form a chain.
proof fn lemma_processed_chain(state: SchedulerView)
    requires
        state.wf(),
    ensures
        is_chain(state.expected_version, processed(state)),
        state.process_settlements().expected_version == chain_end(
            state.expected_version,
            processed(state),
        ),
    decreases state.settlements.len(),
{
    if state.has_next_settlement() && !state.is_stuck() {
        let next = state.next_settlement();
        let rest = state.take_settlement().process_settlement(next);
        lemma_next_wf(state);
        lemma_processed_chain(rest);
        let one = seq![next];
        assert(is_chain(state.expected_version, one)) by {
            assert(one.take(0) =~= Seq::empty());
        }
        lemma_chain_add(state.expected_version, one, processed(rest));
    }
}

/// The settlements that have been processed form a chain up to the version whose turn it is.
proof fn lemma_chain_so_far(start: SequenceNumber, calls: Seq<Call>)
    ensures
        is_chain(start, processed_in(start, calls)),
        run(start, calls).expected_version == chain_end(start, processed_in(start, calls)),
    decreases calls.len(),
{
    if calls.len() > 0 {
        let before = run(start, calls.drop_last());
        let so_far = processed_in(start, calls.drop_last());
        let now = processed_by(before, calls.last());
        lemma_chain_so_far(start, calls.drop_last());
        law_every_history_is_well_formed(start, calls.drop_last());
        match calls.last() {
            Call::Enqueue { version, withdraws, balance } => {
                assert(so_far + now =~= so_far);
            },
            Call::Settle { settlement } => {
                lemma_received_wf(before, settlement);
                lemma_processed_chain(before.receive_settlement(settlement));
                lemma_chain_add(start, so_far, now);
            },
        }
    }
}

/// How often the settlement waits for its turn.
spec fn waiting(state: SchedulerView, settlement: SettlementView) -> nat {
    let version = settlement.old_accumulator_version;
    if state.settlements.contains_key(version) && state.settlements[version] == settlement {
        1
    } else {
        0
    }
}

/// A settlement that is processed waits no longer.
proof fn lemma_processed_once(state: SchedulerView, settlement: SettlementView)
    requires
        state.wf(),
    ensures
        processed(state).to_multiset().count(settlement) + waiting(
            state.process_settlements(),
            settlement,
        ) == waiting(state, settlement),
    decreases state.settlements.len(),
{
    broadcast use vstd::seq_lib::group_to_multiset_ensures;

    if state.has_next_settlement() && !state.is_stuck() {
        let next = state.next_settlement();
        let rest = state.take_settlement().process_settlement(next);
        let one = Seq::empty().push(next);
        lemma_next_wf(state);
        lemma_processed_once(rest, settlement);
        vstd::seq_lib::lemma_multiset_commutative(one, processed(rest));
        assert(processed(state) =~= one + processed(rest));
        assert(one.to_multiset().count(settlement) == if settlement == next {
            1nat
        } else {
            0
        });
    }
}

/// A settlement has been processed, or waits, at most as often as it was taken in.
proof fn lemma_used_once(start: SequenceNumber, calls: Seq<Call>, settlement: SettlementView)
    ensures
        processed_in(start, calls).to_multiset().count(settlement) + waiting(
            run(start, calls),
            settlement,
        ) <= received_in(calls).to_multiset().count(settlement),
    decreases calls.len(),
{
    broadcast use vstd::seq_lib::group_to_multiset_ensures;

    if calls.len() > 0 {
        let before = run(start, calls.drop_last());
        let so_far = processed_in(start, calls.drop_last());
        let now = processed_by(before, calls.last());
        lemma_used_once(start, calls.drop_last(), settlement);
        law_every_history_is_well_formed(start, calls.drop_last());
        vstd::seq_lib::lemma_multiset_commutative(so_far, now);
        match calls.last() {
            Call::Enqueue { version, withdraws, balance } => {
                assert(so_far + now =~= so_far);
            },
            Call::Settle { settlement: taken_in } => {
                lemma_received_wf(before, taken_in);
                lemma_processed_once(before.receive_settlement(taken_in), settlement);
                assert(waiting(before.receive_settlement(taken_in), settlement) <= waiting(
                    before,
                    settlement,
                ) + if taken_in == settlement {
                    1nat
                } else {
                    0
                });
            },
        }
    }
}

/// Settlements that are processed in turn keep books and queues in order, and no transaction
/// begins to wait.
proof fn lemma_processed_tidy(state: SchedulerView)
    requires
        state.wf(),
        state.expected_version == state.last_known_settled_version,
        books_match(state),
        queues_in_order(state),
    ensures
        books_match(state.process_settlements()),
        queues_in_order(state.process_settlements()),
        forall|id: RegistrationId| #[trigger]
            state.process_settlements().registrations.contains_key(id) ==> {
                &&& state.registrations.contains_key(id)
                &&& state.process_settlements().registrations[id].accumulator_version
                    == state.registrations[id].accumulator_version
            },
    decreases state.settlements.len(),
{
    if state.has_next_settlement() && !state.is_stuck() {
        let taken = state.take_settlement();
        let next = state.next_settlement();
        lemma_next_wf(state);
        lemma_same_books(state, taken);
        law_settlement_keeps_books(taken, next);
        law_settlement_keeps_order(taken, next);
        lemma_processed_tidy(taken.process_settlement(next));
    }
}

/// The settlements that have arrived play no part in the books.
proof fn lemma_same_books(state: SchedulerView, other: SchedulerView)
    requires
        books_match(state),
        queues_in_order(state),
        other.accounts == state.accounts,
        other.registrations == state.registrations,
        other.pending == state.pending,
    ensures
        books_match(other),
        queues_in_order(other),
{
    assert forall|account: ObjectID, version: SequenceNumber|
        other.due_accounts(version).contains(account) <==> is_outstanding(
            other,
            account,
            version,
        ) by {
        assert(state.due_accounts(version).contains(account) <==> is_outstanding(
            state,
            account,
            version,
        ));
        assert(forall|id: RegistrationId|
            waits_at(other, account, version, id) == waits_at(
                state,
                account,
                version,
                id,
            ));
    }
    assert forall|account: ObjectID, i: int, j: int|
        other.accounts.contains_key(account) && 0 <= i < j
            < other.accounts[account].enqueued.len() implies (
    #[trigger] other.requests_of(account)[i]).accumulator_version <= (
    #[trigger] other.requests_of(account)[j]).accumulator_version by {
        assert(state.requests_of(account)[i].accumulator_version <= state.requests_of(
            account,
        )[j].accumulator_version);
    }
}

/// Where transactions are enqueued in the order of their versions, books and queues are in order,
/// and every transaction that waits was enqueued by one of the calls.
proof fn lemma_tidy(start: SequenceNumber, calls: Seq<Call>)
    requires
        versions_in_order(calls),
    ensures
        books_match(run(start, calls)),
        queues_in_order(run(start, calls)),
        forall|id: RegistrationId| #[trigger]
            run(start, calls).registrations.contains_key(id) ==> exists|i: int|
                0 <= i < calls.len() && #[trigger] enqueues_at(
                    calls[i],
                    run(start, calls).registrations[id].accumulator_version,
                ),
    decreases calls.len(),
{
    if calls.len() > 0 {
        let earlier = calls.drop_last();
        let before = run(start, earlier);
        let after = run(start, calls);
        assert(versions_in_order(earlier)) by {
            assert forall|i: int, j: int, one: SequenceNumber, other: SequenceNumber|
                0 <= i < j < earlier.len() && #[trigger] enqueues_at(earlier[i], one)
                    && #[trigger] enqueues_at(earlier[j], other) implies one <= other by {
                assert(enqueues_at(calls[i], one) && enqueues_at(calls[j], other));
            }
        }
        lemma_tidy(start, earlier);
        law_every_history_is_well_formed(start, earlier);
        let last = calls.len() - 1;
        match calls.last() {
            Call::Enqueue { version, withdraws, balance } => {
                assert(enqueues_at(calls[last], version));
                if before.can_enqueue(version, withdraws, balance) {
                    assert(none_waits_beyond(before, version)) by {
                        assert forall|id: RegistrationId| #[trigger]
                            before.registrations.contains_key(id) implies
                            before.registrations[id].accumulator_version <= version by {
                            let at = before.registrations[id].accumulator_version;
                            let i = choose|i: int|
                                0 <= i < earlier.len() && #[trigger] enqueues_at(earlier[i], at);
                            assert(enqueues_at(calls[i], at));
                        }
                    }
                    law_enqueuing_keeps_books(before, version, withdraws, balance);
                    law_enqueuing_keeps_order(before, version, withdraws, balance);
                }
                lemma_first_of_distinct(withdraws, before.seen_at(version));
                assert forall|id: RegistrationId| #[trigger]
                    after.registrations.contains_key(id) implies exists|i: int|
                    0 <= i < calls.len() && #[trigger] enqueues_at(
                        calls[i],
                        after.registrations[id].accumulator_version,
                    ) by {
                    let at = after.registrations[id].accumulator_version;
                    if at != version {
                        assert(before.registrations.contains_key(id));
                        let i = choose|i: int|
                            0 <= i < earlier.len() && #[trigger] enqueues_at(earlier[i], at);
                        assert(enqueues_at(calls[i], at));
                    }
                }
            },
            Call::Settle { settlement } => {
                let received = before.receive_settlement(settlement);
                lemma_received_wf(before, settlement);
                lemma_same_books(before, received);
                lemma_processed_tidy(received);
                assert forall|id: RegistrationId| #[trigger]
                    after.registrations.contains_key(id) implies exists|i: int|
                    0 <= i < calls.len() && #[trigger] enqueues_at(
                        calls[i],
                        after.registrations[id].accumulator_version,
                    ) by {
                    let at = after.registrations[id].accumulator_version;
                    assert(before.registrations.contains_key(id));
                    let i = choose|i: int|
                        0 <= i < earlier.len() && #[trigger] enqueues_at(earlier[i], at);
                    assert(enqueues_at(calls[i], at));
                }
            },
        }
    } else {
        law_books_match_at_first(start);
    }
}

} // verus!
