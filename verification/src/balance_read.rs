//! Where settled balances come from.
use crate::types::{ObjectID, SequenceNumber};
use vstd::prelude::*;

verus! {

/// Read access to the settled state of the accounts.
pub trait AccountBalanceRead {
    /// The balance of `account_id` once `accumulator_version` is settled; zero for an account
    /// that does not exist. The contracts speak of it, and no running code calls it.
    spec fn account_balance(
        &self,
        account_id: ObjectID,
        accumulator_version: SequenceNumber,
    ) -> u64;

    /// Returns the accumulator version that is settled at the moment of the call. Nothing is
    /// promised of it: it moves on with every settlement.
    fn get_accumulator_version(&self) -> SequenceNumber;

    /// Returns the balance of an account at a settled version. A settled balance does not change,
    /// so an implementation gives the same answer to the same question.
    fn get_account_balance(
        &self,
        account_id: &ObjectID,
        accumulator_version: SequenceNumber,
    ) -> (balance: u64)
        ensures
            balance == self.account_balance(*account_id, accumulator_version),
    ;
}

} // verus!
