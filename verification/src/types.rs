//! The plain values that the scheduler works on, and what the contracts see of them.
use std::collections::BTreeMap;
use vstd::prelude::*;

verus! {

/// The 256-bit identifier of an account, as its high and its low half. The order of the pairs is
/// the order of the identifiers.
pub type ObjectID = (u128, u128);

/// The 256-bit digest that identifies a transaction, as its high and its low half.
pub type TransactionDigest = (u128, u128);

/// The version of the accumulator object. Each settlement moves it on.
pub type SequenceNumber = u64;

/// Names a transaction that is registered with its accounts.
pub type RegistrationId = u64;

/// The result of scheduling the withdraw reservations for a transaction.
#[derive(Clone, Copy, Debug, PartialEq, Eq, Structural)]
pub enum ScheduleResult {
    /// The withdraw reservation has not been processed yet.
    Init,
    /// The transaction in question has already been executed.
    /// No need to schedule the withdraw reservations.
    AlreadyExecuted,
    /// We have reached a deterministic state where the transaction can be executed.
    /// Either because we know for sure there is enough balance to satisfy all withdraw
    /// reservations in this transaction, or because the previous dependent settlement transaction
    /// has been executed and we have the latest prior state.
    ReadyForExecution,
}

/// What whoever enqueued a transaction holds: the result as it stands when the call returns, and,
/// where a later call can still report the transaction as ready, the registration under which it
/// will do so.
#[derive(Clone, Copy, Debug, PartialEq, Eq, Structural)]
pub struct ScheduleReceiver {
    pub result: ScheduleResult,
    pub registration: Option<RegistrationId>,
}

/// Details regarding a balance settlement, generated when a settlement transaction has been
/// executed and committed.
#[derive(Debug)]
pub struct BalanceSettlement {
    pub old_accumulator_version: SequenceNumber,
    pub new_accumulator_version: SequenceNumber,
    pub balance_changes: BTreeMap<ObjectID, i128>,
}

/// The contents of a [`BalanceSettlement`].
#[verifier::ext_equal]
pub ghost struct SettlementView {
    pub old_accumulator_version: SequenceNumber,
    pub new_accumulator_version: SequenceNumber,
    pub balance_changes: Map<ObjectID, i128>,
}

impl View for BalanceSettlement {
    type V = SettlementView;

    open spec fn view(&self) -> SettlementView {
        SettlementView {
            old_accumulator_version: self.old_accumulator_version,
            new_accumulator_version: self.new_accumulator_version,
            balance_changes: self.balance_changes@,
        }
    }
}

impl SettlementView {
    /// What the settlement adds to the balance of `account`.
    pub open spec fn change_of(self, account: ObjectID) -> i128 {
        if self.balance_changes.contains_key(account) {
            self.balance_changes[account]
        } else {
            0
        }
    }
}

/// Details regarding all balance withdraw reservations in a transaction.
#[derive(Debug)]
pub struct TxBalanceWithdraw {
    pub tx_digest: TransactionDigest,
    pub reservations: BTreeMap<ObjectID, u64>,
}

/// The contents of a [`TxBalanceWithdraw`].
#[verifier::ext_equal]
pub ghost struct WithdrawView {
    pub tx_digest: TransactionDigest,
    pub reservations: Map<ObjectID, u64>,
}

impl View for TxBalanceWithdraw {
    type V = WithdrawView;

    open spec fn view(&self) -> WithdrawView {
        WithdrawView { tx_digest: self.tx_digest, reservations: self.reservations@ }
    }
}

/// The contents of a list of [`TxBalanceWithdraw`]s.
pub open spec fn withdraws_view(withdraws: Seq<TxBalanceWithdraw>) -> Seq<WithdrawView> {
    Seq::new(withdraws.len(), |i: int| withdraws[i]@)
}

/// The contracts see of a settlement all that it holds.
pub proof fn law_settlement_is_seen_whole(settlement: BalanceSettlement)
    ensures
        settlement@.old_accumulator_version == settlement.old_accumulator_version,
        settlement@.new_accumulator_version == settlement.new_accumulator_version,
        settlement@.balance_changes == settlement.balance_changes@,
{
}

/// The contracts see of a list of transactions all that they hold, in the order of the list.
pub proof fn law_withdraws_are_seen_whole(withdraws: Seq<TxBalanceWithdraw>)
    ensures
        withdraws_view(withdraws).len() == withdraws.len(),
        forall|i: int|
            0 <= i < withdraws.len() ==> {
                let seen = #[trigger] withdraws_view(withdraws)[i];
                &&& seen.tx_digest == withdraws[i].tx_digest
                &&& seen.reservations == withdraws[i].reservations@
            },
{
}

} // verus!
