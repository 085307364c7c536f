//! The order in which settlements arrive makes no difference.
use crate::model::SchedulerView;
use crate::types::{RegistrationId, SequenceNumber, SettlementView};
use vstd::prelude::*;

verus! {

/// A settlement that has to wait for its turn makes no difference to those that are processed
/// before it.
pub proof fn lemma_receive_early(state: SchedulerView, settlement: SettlementView)
    requires
        state.settlements.dom().finite(),
        !state.settlements.contains_key(settlement.old_accumulator_version),
    ensures
        state.process_settlements().settlements.dom().finite(),
        state.receive_settlement(settlement).process_settlements()
            == state.process_settlements().receive_settlement(settlement).process_settlements(),
        state.receive_settlement(settlement).ready_at_settlements()
            == state.ready_at_settlements().union(
            state.process_settlements().receive_settlement(settlement).ready_at_settlements(),
        ),
    decreases state.settlements.len(),
{
    let early = state.receive_settlement(settlement);
    if state.has_next_settlement() {
        let next = state.next_settlement();
        let taken = state.take_settlement();
        assert(early.take_settlement() == taken.receive_settlement(settlement)) by {
            assert(early.take_settlement().settlements =~= taken.receive_settlement(
                settlement,
            ).settlements);
        }
        lemma_settling_ignores_settlements(
            taken,
            taken.receive_settlement(settlement).settlements,
            next,
        );
        if state.is_stuck() {
            assert(early.is_stuck());
            assert(state.ready_at_settlements().union(early.ready_at_settlements())
                =~= early.ready_at_settlements());
        } else {
            let rest = taken.process_settlement(next);
            assert(!early.is_stuck());
            lemma_receive_early(rest, settlement);
            assert(early.ready_at_settlements() =~= state.ready_at_settlements().union(
                state.process_settlements().receive_settlement(settlement).ready_at_settlements(),
            ));
        }
    } else {
        assert(state.ready_at_settlements().union(early.ready_at_settlements())
            =~= early.ready_at_settlements());
    }
}

/// The settlements that wait for their turn play no part in the one that is processed.
proof fn lemma_settling_ignores_settlements(
    state: SchedulerView,
    settlements: Map<SequenceNumber, SettlementView>,
    settlement: SettlementView,
)
    ensures
        (SchedulerView { settlements, ..state }).process_settlement(settlement)
            == (SchedulerView { settlements, ..state.process_settlement(settlement) }),
        (SchedulerView { settlements, ..state }).ready_at_settlement(settlement)
            == state.ready_at_settlement(settlement),
        (SchedulerView { settlements, ..state }).can_settle(settlement) == state.can_settle(
            settlement,
        ),
{
    let more = SchedulerView { settlements, ..state };
    let settled = settlement.new_accumulator_version;
    let touched = state.asked_by(settlement);
    let middle = state.settle_balances(settlement);
    assert(more.settle_balances(settlement).accounts =~= middle.accounts);
    let more_middle = SchedulerView { settlements, ..middle };
    assert(more.settle_balances(settlement) == more_middle);
    assert forall|id: RegistrationId| #[trigger]
        more_middle.registration_after(id, touched, settled) == middle.registration_after(
            id,
            touched,
            settled,
        ) by {
        assert(more_middle.registration_after(id, touched, settled).pending_accounts
            =~= middle.registration_after(id, touched, settled).pending_accounts);
    }
    assert(more_middle.newly_ready(touched, settled) =~= middle.newly_ready(touched, settled));
    assert(more_middle.serve(touched, settled).accounts =~= middle.serve(
        touched,
        settled,
    ).accounts);
    assert(more_middle.serve(touched, settled).registrations =~= middle.serve(
        touched,
        settled,
    ).registrations);
}

/// It makes no difference in which order two settlements of different versions arrive: each waits
/// until the one before it has been processed, and the same transactions are ready in the end.
pub proof fn law_settlements_arrive_in_any_order(
    state: SchedulerView,
    one: SettlementView,
    other: SettlementView,
)
    requires
        state.wf(),
        one.old_accumulator_version != other.old_accumulator_version,
        !state.settlements.contains_key(one.old_accumulator_version),
        !state.settlements.contains_key(other.old_accumulator_version),
    ensures
        ({
            let after_one = state.receive_settlement(one).process_settlements();
            let after_other = state.receive_settlement(other).process_settlements();
            &&& after_one.receive_settlement(other).process_settlements()
                == after_other.receive_settlement(one).process_settlements()
            &&& state.receive_settlement(one).ready_at_settlements().union(
                after_one.receive_settlement(other).ready_at_settlements(),
            ) == state.receive_settlement(other).ready_at_settlements().union(
                after_other.receive_settlement(one).ready_at_settlements(),
            )
        }),
{
    lemma_receive_early(state.receive_settlement(one), other);
    lemma_receive_early(state.receive_settlement(other), one);
    assert(state.receive_settlement(one).receive_settlement(other).settlements
        =~= state.receive_settlement(other).receive_settlement(one).settlements);
}

/// Each settlement settles the version that the one before it has settled on, and the first one
/// settles `from`.
pub open spec fn is_chain(from: SequenceNumber, chain: Seq<SettlementView>) -> bool {
    forall|i: int|
        0 <= i < chain.len() ==> (#[trigger] chain[i]).old_accumulator_version == chain_end(
            from,
            chain.take(i),
        )
}

/// The version that a chain of settlements from `from` on settles on.
pub open spec fn chain_end(from: SequenceNumber, chain: Seq<SettlementView>) -> SequenceNumber {
    if chain.len() == 0 {
        from
    } else {
        chain.last().new_accumulator_version
    }
}

/// No two of the settlements settle the same version.
pub open spec fn settle_distinct_versions(settlements: Seq<SettlementView>) -> bool {
    forall|i: int, j: int|
        0 <= i < j < settlements.len() ==> (#[trigger] settlements[i]).old_accumulator_version != (
        #[trigger] settlements[j]).old_accumulator_version
}

/// The scheduler once it has processed one settlement that was not kept waiting.
pub open spec fn follow_one(state: SchedulerView, settlement: SettlementView) -> SchedulerView {
    turn_to(state, settlement).process_settlement(settlement)
}

/// The scheduler when it is the turn of the settlement after this one.
pub open spec fn turn_to(state: SchedulerView, settlement: SettlementView) -> SchedulerView {
    SchedulerView { expected_version: settlement.new_accumulator_version, ..state }
}

/// The scheduler once it has processed a chain of settlements, one after the other.
pub open spec fn follow(state: SchedulerView, chain: Seq<SettlementView>) -> SchedulerView
    decreases chain.len(),
{
    if chain.len() == 0 {
        state
    } else {
        follow(follow_one(state, chain[0]), chain.drop_first())
    }
}

/// The transactions that become ready along a chain of settlements.
pub open spec fn ready_along(state: SchedulerView, chain: Seq<SettlementView>) -> Set<
    RegistrationId,
>
    decreases chain.len(),
{
    if chain.len() == 0 {
        Set::empty()
    } else {
        turn_to(state, chain[0]).ready_at_settlement(chain[0]).union(
            ready_along(follow_one(state, chain[0]), chain.drop_first()),
        )
    }
}

/// Each settlement of a chain can be processed once those before it have been.
pub open spec fn can_follow(state: SchedulerView, chain: Seq<SettlementView>) -> bool
    decreases chain.len(),
{
    chain.len() > 0 ==> {
        &&& turn_to(state, chain[0]).can_settle(chain[0])
        &&& can_follow(follow_one(state, chain[0]), chain.drop_first())
    }
}

/// The scheduler once settlements have arrived in this order, and what could be processed has been
/// after each of them.
pub open spec fn receive_in_turn(state: SchedulerView, order: Seq<SettlementView>) -> SchedulerView
    decreases order.len(),
{
    if order.len() == 0 {
        state
    } else {
        receive_in_turn(state, order.drop_last()).receive_settlement(
            order.last(),
        ).process_settlements()
    }
}

/// The transactions that become ready while settlements arrive in this order.
pub open spec fn ready_in_turn(state: SchedulerView, order: Seq<SettlementView>) -> Set<
    RegistrationId,
>
    decreases order.len(),
{
    if order.len() == 0 {
        Set::empty()
    } else {
        ready_in_turn(state, order.drop_last()).union(
            receive_in_turn(state, order.drop_last()).receive_settlement(
                order.last(),
            ).ready_at_settlements(),
        )
    }
}

/// The settlements, by the version that each settles.
spec fn by_version(settlements: Seq<SettlementView>) -> Map<SequenceNumber, SettlementView>
    decreases settlements.len(),
{
    if settlements.len() == 0 {
        Map::empty()
    } else {
        by_version(settlements.drop_last()).insert(
            settlements.last().old_accumulator_version,
            settlements.last(),
        )
    }
}

/// What settlements of distinct versions are by version.
proof fn lemma_by_version(settlements: Seq<SettlementView>)
    requires
        settle_distinct_versions(settlements),
    ensures
        by_version(settlements).dom().finite(),
        forall|settlement: SettlementView| #[trigger]
            settlements.contains(settlement) ==> {
                &&& by_version(settlements).contains_key(settlement.old_accumulator_version)
                &&& by_version(settlements)[settlement.old_accumulator_version] == settlement
            },
        forall|version: SequenceNumber| #[trigger]
            by_version(settlements).contains_key(version) ==> {
                &&& settlements.contains(by_version(settlements)[version])
                &&& by_version(settlements)[version].old_accumulator_version == version
            },
    decreases settlements.len(),
{
    if settlements.len() > 0 {
        let earlier = settlements.drop_last();
        let last = settlements.last();
        lemma_by_version(earlier);
        assert(by_version(settlements).dom() =~= by_version(earlier).dom().insert(
            last.old_accumulator_version,
        ));
        assert forall|settlement: SettlementView| #[trigger]
            settlements.contains(settlement) implies {
            &&& by_version(settlements).contains_key(settlement.old_accumulator_version)
            &&& by_version(settlements)[settlement.old_accumulator_version] == settlement
        } by {
            let i = settlements.index_of(settlement);
            if i < earlier.len() {
                assert(earlier[i] == settlement);
                assert(earlier.contains(settlement));
                assert(settlements[i].old_accumulator_version != last.old_accumulator_version) by {
                    assert(settlements[earlier.len() as int] == last);
                }
            }
        }
        assert forall|version: SequenceNumber| #[trigger]
            by_version(settlements).contains_key(version) implies {
            &&& settlements.contains(by_version(settlements)[version])
            &&& by_version(settlements)[version].old_accumulator_version == version
        } by {
            if version != last.old_accumulator_version {
                assert(by_version(earlier).contains_key(version));
                let settlement = by_version(earlier)[version];
                assert(earlier.contains(settlement));
                assert(settlements[earlier.index_of(settlement)] == settlement);
            } else {
                assert(settlements[earlier.len() as int] == last);
            }
        }
    }
}

/// To process what can be processed after each arrival comes to the same as to process it once all
/// have arrived.
proof fn lemma_receive_in_turn(state: SchedulerView, order: Seq<SettlementView>)
    requires
        state.settlements == Map::<SequenceNumber, SettlementView>::empty(),
        settle_distinct_versions(order),
    ensures
        ({
            let all = SchedulerView { settlements: by_version(order), ..state };
            &&& receive_in_turn(state, order) == all.process_settlements()
            &&& ready_in_turn(state, order) == all.ready_at_settlements()
        }),
    decreases order.len(),
{
    let all = SchedulerView { settlements: by_version(order), ..state };
    if order.len() > 0 {
        let earlier = order.drop_last();
        let last = order.last();
        let some = SchedulerView { settlements: by_version(earlier), ..state };
        assert(settle_distinct_versions(earlier)) by {
            assert forall|i: int, j: int| 0 <= i < j < earlier.len() implies (
            #[trigger] earlier[i]).old_accumulator_version != (
            #[trigger] earlier[j]).old_accumulator_version by {
                assert(order[i].old_accumulator_version != order[j].old_accumulator_version);
            }
        }
        lemma_receive_in_turn(state, earlier);
        lemma_by_version(earlier);
        if by_version(earlier).contains_key(last.old_accumulator_version) {
            let other = by_version(earlier)[last.old_accumulator_version];
            let i = earlier.index_of(other);
            assert(order[earlier.len() as int] == last);
            assert(order[i].old_accumulator_version != last.old_accumulator_version);
        }
        lemma_receive_early(some, last);
        assert(some.receive_settlement(last) == all);
    } else {
        assert(all == state);
    }
}

/// Where a whole chain has arrived it is processed from its beginning to its end.
proof fn lemma_follow(state: SchedulerView, chain: Seq<SettlementView>)
    requires
        state.settlements == Map::<SequenceNumber, SettlementView>::empty(),
        is_chain(state.expected_version, chain),
        settle_distinct_versions(chain),
        can_follow(state, chain),
    ensures
        ({
            let all = SchedulerView { settlements: by_version(chain), ..state };
            &&& all.process_settlements() == follow(state, chain)
            &&& all.ready_at_settlements() == ready_along(state, chain)
        }),
        follow(state, chain).settlements == Map::<SequenceNumber, SettlementView>::empty(),
        follow(state, chain).expected_version == chain_end(state.expected_version, chain),
    decreases chain.len(),
{
    let all = SchedulerView { settlements: by_version(chain), ..state };
    lemma_by_version(chain);
    if chain.len() > 0 {
        let next = chain[0];
        let rest = chain.drop_first();
        let followed = follow_one(state, next);
        assert(chain.take(0) =~= Seq::empty());
        assert(next.old_accumulator_version == state.expected_version);
        assert(chain.contains(next));
        assert(all.has_next_settlement());
        assert(all.next_settlement() == next);
        assert forall|i: int, j: int| 0 <= i < j < rest.len() implies (
        #[trigger] rest[i]).old_accumulator_version != (
        #[trigger] rest[j]).old_accumulator_version by {
            assert(chain[i + 1].old_accumulator_version != chain[j + 1].old_accumulator_version);
        }
        lemma_by_version(rest);
        assert(by_version(chain).remove(next.old_accumulator_version) =~= by_version(rest)) by {
            assert forall|version: SequenceNumber| #[trigger]
                by_version(rest).contains_key(version) <==> by_version(chain).contains_key(version)
                    && version != next.old_accumulator_version by {
                if by_version(rest).contains_key(version) {
                    let i = rest.index_of(by_version(rest)[version]);
                    assert(chain[i + 1] == rest[i]);
                    assert(chain.contains(chain[i + 1]));
                    assert(chain[0].old_accumulator_version
                        != chain[i + 1].old_accumulator_version);
                }
                if by_version(chain).contains_key(version) && version
                    != next.old_accumulator_version {
                    let i = chain.index_of(by_version(chain)[version]);
                    assert(rest[i - 1] == chain[i]);
                    assert(rest.contains(rest[i - 1]));
                }
            }
            assert forall|version: SequenceNumber| #[trigger]
                by_version(rest).contains_key(version) implies by_version(rest)[version]
                == by_version(chain)[version] by {
                let i = rest.index_of(by_version(rest)[version]);
                assert(chain[i + 1] == rest[i]);
                assert(chain.contains(chain[i + 1]));
            }
        }
        lemma_settling_ignores_settlements(turn_to(state, next), by_version(rest), next);
        assert(all.take_settlement() == (SchedulerView {
            settlements: by_version(rest),
            ..turn_to(state, next)
        }));
        assert forall|i: int| 0 <= i < rest.len() implies (
        #[trigger] rest[i]).old_accumulator_version == chain_end(
            followed.expected_version,
            rest.take(i),
        ) by {
            assert(rest[i] == chain[i + 1]);
            if i > 0 {
                assert(rest.take(i).last() == chain.take(i + 1).last());
            } else {
                assert(chain.take(1).last() == next);
            }
        }
        lemma_follow(followed, rest);
        if rest.len() > 0 {
            assert(rest.last() == chain.last());
        }
    } else {
        assert(all == state);
    }
}

/// A whole chain of settlements is processed in full, in whatever order its settlements arrive:
/// from the version whose turn it is to the end of the chain, as if they had arrived one after the
/// other, with the same transactions ready, and none left waiting.
pub proof fn law_chains_are_processed_in_full(
    state: SchedulerView,
    chain: Seq<SettlementView>,
    order: Seq<SettlementView>,
)
    requires
        state.settlements.is_empty(),
        is_chain(state.expected_version, chain),
        settle_distinct_versions(chain),
        can_follow(state, chain),
        order.to_multiset() == chain.to_multiset(),
    ensures
        receive_in_turn(state, order) == follow(state, chain),
        ready_in_turn(state, order) == ready_along(state, chain),
        receive_in_turn(state, order).settlements.is_empty(),
        receive_in_turn(state, order).expected_version == chain_end(
            state.expected_version,
            chain,
        ),
{
    broadcast use vstd::seq_lib::group_to_multiset_ensures;

    assert(state.settlements =~= Map::empty());
    assert forall|settlement: SettlementView|
        order.contains(settlement) <==> chain.contains(settlement) by {
        assert(order.contains(settlement) <==> order.to_multiset().count(settlement) > 0);
        assert(chain.contains(settlement) <==> chain.to_multiset().count(settlement) > 0);
    }
    lemma_order_is_distinct(chain, order);
    lemma_by_version(chain);
    lemma_by_version(order);
    assert(by_version(order) =~= by_version(chain));
    lemma_receive_in_turn(state, order);
    lemma_follow(state, chain);
}

/// Settlements of distinct versions settle distinct versions in any order.
proof fn lemma_order_is_distinct(chain: Seq<SettlementView>, order: Seq<SettlementView>)
    requires
        settle_distinct_versions(chain),
        order.to_multiset() == chain.to_multiset(),
    ensures
        settle_distinct_versions(order),
{
    broadcast use vstd::seq_lib::group_to_multiset_ensures;

    assert(chain.no_duplicates()) by {
        assert forall|i: int, j: int| 0 <= i < j < chain.len() implies chain[i] != chain[j] by {
            assert(chain[i].old_accumulator_version != chain[j].old_accumulator_version);
        }
    }
    chain.lemma_multiset_has_no_duplicates();
    order.lemma_multiset_has_no_duplicates_conv();
    assert forall|i: int, j: int| 0 <= i < j < order.len() implies (
    #[trigger] order[i]).old_accumulator_version != (
    #[trigger] order[j]).old_accumulator_version by {
        assert(order.to_multiset().count(order[i]) > 0);
        assert(order.to_multiset().count(order[j]) > 0);
        let k = chain.index_of(order[i]);
        let l = chain.index_of(order[j]);
        assert(chain.contains(order[i]) && chain.contains(order[j]));
        assert(order[i] != order[j]);
        assert(chain[k].old_accumulator_version != chain[l].old_accumulator_version);
    }
}

} // verus!
