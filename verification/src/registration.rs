//! Transactions that wait for their withdraw reservations, and the table that holds them.
use crate::listing::{extend, keys_of};
use crate::types::{ObjectID, RegistrationId, ScheduleResult, SequenceNumber};
use std::collections::{BTreeMap, BTreeSet};
use vstd::prelude::*;
use vstd::std_specs::iter::IteratorSpec;

verus! {

/// Represents an active registration of a transaction waiting for its withdraw reservations to be
/// deterministically satisfied.
#[derive(Debug)]
pub struct TxWithdrawRegistration {
    /// The accumulator version at which the transaction was scheduled on.
    pub accumulator_version: SequenceNumber,
    /// The set of accounts and the amount of withdraw reservations in this transaction that are
    /// not yet deterministic where we know for sure if there is enough balance for the reservation
    /// on this account. When this becomes empty, the transaction is ready to be executed at least
    /// from balance withdraw perspective.
    pub pending_accounts: BTreeMap<ObjectID, u64>,
    /// What the transaction has been told so far.
    pub result: ScheduleResult,
}

/// The contents of a [`TxWithdrawRegistration`].
#[verifier::ext_equal]
pub ghost struct RegistrationView {
    pub accumulator_version: SequenceNumber,
    pub pending_accounts: Map<ObjectID, u64>,
    pub result: ScheduleResult,
}

impl View for TxWithdrawRegistration {
    type V = RegistrationView;

    open spec fn view(&self) -> RegistrationView {
        RegistrationView {
            accumulator_version: self.accumulator_version,
            pending_accounts: self.pending_accounts@,
            result: self.result,
        }
    }
}

impl RegistrationView {
    /// A registration of which no account is settled yet.
    pub open spec fn fresh(
        accumulator_version: SequenceNumber,
        pending_accounts: Map<ObjectID, u64>,
    ) -> Self {
        RegistrationView { accumulator_version, pending_accounts, result: ScheduleResult::Init }
    }

    /// The registration once it no longer waits for `account`. With the last account gone the
    /// transaction is told that it is ready.
    pub open spec fn account_ready(self, account: ObjectID) -> Self {
        let pending_accounts = self.pending_accounts.remove(account);
        RegistrationView {
            pending_accounts,
            result: if pending_accounts.is_empty() {
                ScheduleResult::ReadyForExecution
            } else {
                self.result
            },
            ..self
        }
    }
}

impl TxWithdrawRegistration {
    /// Registers a transaction whose amounts, by account, are all still to be reserved.
    pub fn new(
        accumulator_version: SequenceNumber,
        pending_accounts: BTreeMap<ObjectID, u64>,
    ) -> (registration: Self)
        ensures
            registration@ == RegistrationView::fresh(accumulator_version, pending_accounts@),
            registration.accumulator_version == accumulator_version,
            registration.pending_accounts@ == pending_accounts@,
            registration.result == ScheduleResult::Init,
    {
        TxWithdrawRegistration {
            accumulator_version,
            pending_accounts,
            result: ScheduleResult::Init,
        }
    }

    /// Signals a specific account has reached a deterministic state where we know for sure if
    /// there is enough balance for the reservation on this account. If all accounts are ready, the
    /// transaction is ready to be executed.
    ///
    /// Each transaction is registered exactly once on each account, and that registration is
    /// popped when it is processed: the account is in the pending accounts map and gets removed
    /// exactly once.
    pub fn account_ready(&mut self, account_id: &ObjectID)
        requires
            old(self)@.pending_accounts.contains_key(*account_id),
        ensures
            final(self)@ == old(self)@.account_ready(*account_id),
            final(self).accumulator_version == old(self).accumulator_version,
            final(self).pending_accounts@ == old(self).pending_accounts@.remove(*account_id),
            final(self).result == if forall|other: ObjectID| #[trigger]
                old(self).pending_accounts@.contains_key(other) ==> other == *account_id {
                ScheduleResult::ReadyForExecution
            } else {
                old(self).result
            },
    {
        self.pending_accounts.remove(account_id);
        if self.pending_accounts.is_empty() {
            self.result = ScheduleResult::ReadyForExecution;
        }
        proof {
            let pending = old(self).pending_accounts@;
            let left = pending.remove(*account_id);
            if forall|other: ObjectID| #[trigger]
                pending.contains_key(other) ==> other == *account_id {
                assert(left.dom() =~= Set::empty());
            }
            if left.is_empty() {
                assert forall|other: ObjectID| #[trigger]
                    pending.contains_key(other) implies other == *account_id by {
                    assert(!left.contains_key(other));
                }
            }
        }
    }
}

/// The registrations that the account queues refer to. One registration stands in the queue of
/// every account that its transaction withdraws from.
#[derive(Debug)]
pub struct RegistrationTable {
    registrations: BTreeMap<RegistrationId, TxWithdrawRegistration>,
    next_id: RegistrationId,
}

impl View for RegistrationTable {
    type V = Map<RegistrationId, RegistrationView>;

    closed spec fn view(&self) -> Map<RegistrationId, RegistrationView> {
        self.registrations@.map_values(|registration: TxWithdrawRegistration| registration@)
    }
}

impl RegistrationTable {
    /// The identifier that the next registration gets.
    pub closed spec fn next_id(&self) -> RegistrationId {
        self.next_id
    }

    pub fn new() -> (table: Self)
        ensures
            table@ == Map::<RegistrationId, RegistrationView>::empty(),
            table.next_id() == 0,
    {
        let table = RegistrationTable { registrations: BTreeMap::new(), next_id: 0 };
        assert(table@ =~= Map::<RegistrationId, RegistrationView>::empty());
        table
    }

    /// Adds a registration under an identifier that no earlier one had.
    pub fn register(&mut self, registration: TxWithdrawRegistration) -> (id: RegistrationId)
        requires
            old(self).next_id() < u64::MAX,
        ensures
            id == old(self).next_id(),
            final(self).next_id() == old(self).next_id() + 1,
            final(self)@ == old(self)@.insert(id, registration@),
    {
        let id: RegistrationId = self.next_id;
        self.next_id = id + 1;
        self.registrations.insert(id, registration);
        assert(self@ =~= old(self)@.insert(id, registration@));
        id
    }

    /// Whether as many registrations as `count` can still get an identifier of their own.
    pub fn has_room(&self, count: usize) -> (room: bool)
        ensures
            room == (self.next_id() + count <= u64::MAX),
    {
        count as u64 <= u64::MAX - self.next_id
    }

    /// The identifier that the next registration gets.
    pub fn upcoming_id(&self) -> (id: RegistrationId)
        ensures
            id == self.next_id(),
    {
        self.next_id
    }

    /// Takes the latest registrations back, from the identifier `first` on. It is the next one
    /// then.
    pub fn take_back(&mut self, first: RegistrationId)
        requires
            first <= old(self).next_id(),
        ensures
            final(self).next_id() == first,
            final(self)@ == old(self)@.remove_keys(
                Set::new(|id: RegistrationId| first <= id < old(self).next_id()),
            ),
    {
        let mut id: RegistrationId = first;
        assert(self@ =~= old(self)@.remove_keys(
            Set::new(|id: RegistrationId| first <= id < first),
        ));
        while id < self.next_id
            invariant
                first <= id <= self.next_id,
                self.next_id == old(self).next_id,
                self@ == old(self)@.remove_keys(
                    Set::new(|other: RegistrationId| first <= other < id),
                ),
            decreases self.next_id - id,
        {
            let ghost so_far = self@;
            self.registrations.remove(&id);
            assert(self@ =~= so_far.remove(id));
            assert(self@ =~= old(self)@.remove_keys(
                Set::new(|other: RegistrationId| first <= other < id + 1),
            ));
            id = id + 1;
        }
        self.next_id = first;
        assert(self@ =~= old(self)@.remove_keys(
            Set::new(|id: RegistrationId| first <= id < old(self).next_id()),
        ));
    }

    /// The accounts that the registrations wait for.
    pub fn waiting_accounts(&self) -> (accounts: BTreeSet<ObjectID>)
        ensures
            forall|account: ObjectID| #[trigger]
                accounts@.contains(account) <==> exists|id: RegistrationId| #[trigger]
                    self@.contains_key(id) && self@[id].pending_accounts.contains_key(account),
    {
        let mut accounts: BTreeSet<ObjectID> = BTreeSet::new();
        let ghost ids = self.registrations.keys().remaining().unref();
        for id in iter: self.registrations.keys()
            invariant
                iter.seq().unref() == ids,
                ids.to_set() == self.registrations@.dom(),
                forall|account: ObjectID| #[trigger]
                    accounts@.contains(account) <==> exists|i: int|
                        0 <= i < iter.index() && (
                        #[trigger] self@[ids[i]]).pending_accounts.contains_key(account),
        {
            let ghost so_far = accounts@;
            let ghost index = iter.index();
            assert(ids[index] == *id);
            assert(ids.to_set().contains(*id));
            if let Some(registration) = self.registrations.get(id) {
                extend(&mut accounts, &keys_of(&registration.pending_accounts));
            }
            proof {
                let pending = self@[ids[index]].pending_accounts;
                assert(accounts@ =~= so_far.union(pending.dom()));
                assert forall|account: ObjectID| #[trigger]
                    accounts@.contains(account) <==> exists|i: int|
                        0 <= i < index + 1 && (
                        #[trigger] self@[ids[i]]).pending_accounts.contains_key(account) by {
                    if so_far.contains(account) {
                        let i = choose|i: int|
                            0 <= i < index && (
                            #[trigger] self@[ids[i]]).pending_accounts.contains_key(account);
                        assert(self@[ids[i]].pending_accounts.contains_key(account));
                    }
                }
            }
        }
        proof {
            assert forall|account: ObjectID| #[trigger]
                accounts@.contains(account) <==> exists|id: RegistrationId| #[trigger]
                    self@.contains_key(id) && self@[id].pending_accounts.contains_key(account) by {
                if accounts@.contains(account) {
                    let i = choose|i: int|
                        0 <= i < ids.len() && (
                        #[trigger] self@[ids[i]]).pending_accounts.contains_key(account);
                    assert(ids.to_set().contains(ids[i]));
                    assert(self@.contains_key(ids[i]));
                }
                if exists|id: RegistrationId| #[trigger]
                    self@.contains_key(id) && self@[id].pending_accounts.contains_key(account) {
                    let id = choose|id: RegistrationId| #[trigger]
                        self@.contains_key(id) && self@[id].pending_accounts.contains_key(account);
                    assert(ids.to_set().contains(id));
                    assert(self@[ids[ids.index_of(id)]].pending_accounts.contains_key(account));
                }
            }
        }
        accounts
    }

    pub fn get(&self, id: &RegistrationId) -> (registration: Option<&TxWithdrawRegistration>)
        ensures
            match registration {
                Some(registration) => self@.contains_key(*id) && self@[*id] == registration@,
                None => !self@.contains_key(*id),
            },
    {
        self.registrations.get(id)
    }

    pub fn remove(&mut self, id: &RegistrationId) -> (registration: Option<TxWithdrawRegistration>)
        ensures
            final(self).next_id() == old(self).next_id(),
            final(self)@ == old(self)@.remove(*id),
            match registration {
                Some(registration) => old(self)@.contains_key(*id) && old(self)@[*id]
                    == registration@,
                None => !old(self)@.contains_key(*id),
            },
    {
        let registration = self.registrations.remove(id);
        assert(self@ =~= old(self)@.remove(*id));
        registration
    }

    /// Signals to one registration that one of its accounts is ready.
    pub fn account_ready(&mut self, id: &RegistrationId, account_id: &ObjectID)
        requires
            old(self)@.contains_key(*id),
            old(self)@[*id].pending_accounts.contains_key(*account_id),
        ensures
            final(self).next_id() == old(self).next_id(),
            final(self)@ == old(self)@.insert(*id, old(self)@[*id].account_ready(*account_id)),
    {
        if let Some(mut registration) = self.registrations.remove(id) {
            registration.account_ready(account_id);
            self.registrations.insert(*id, registration);
        }
        assert(self@ =~= old(self)@.insert(*id, old(self)@[*id].account_ready(*account_id)));
    }
}

} // verus!
