//! What is outstanding at one accumulator version.
use crate::types::{ObjectID, TransactionDigest};
use std::collections::BTreeSet;
use vstd::prelude::*;

verus! {

/// All transactions that have scheduled withdraw reservations at a specific accumulator version,
/// and the set of accounts that have scheduled withdraw reservations at that accumulator version.
/// This is used to make sure we don't schedule the same transaction twice,
/// as well as used to settle the withdraw reservations for all accounts
/// that reserved withdraws at each accumulator version.
#[derive(Debug)]
pub struct PendingAccumulatorVersion {
    pub transactions: BTreeSet<TransactionDigest>,
    pub accounts: BTreeSet<ObjectID>,
}

/// The contents of a [`PendingAccumulatorVersion`].
#[verifier::ext_equal]
pub ghost struct PendingView {
    pub transactions: Set<TransactionDigest>,
    pub accounts: Set<ObjectID>,
}

impl View for PendingAccumulatorVersion {
    type V = PendingView;

    open spec fn view(&self) -> PendingView {
        PendingView { transactions: self.transactions@, accounts: self.accounts@ }
    }
}

impl PendingView {
    /// Nothing is outstanding.
    pub open spec fn empty() -> Self {
        PendingView { transactions: Set::empty(), accounts: Set::empty() }
    }
}

impl Default for PendingAccumulatorVersion {
    fn default() -> (pending: Self)
        ensures
            pending@ == PendingView::empty(),
            pending.transactions@ == Set::<TransactionDigest>::empty(),
            pending.accounts@ == Set::<ObjectID>::empty(),
    {
        PendingAccumulatorVersion { transactions: BTreeSet::new(), accounts: BTreeSet::new() }
    }
}

} // verus!
