//! One account: the reservations that wait, those that are made, and what is left for more.
use crate::balance_read::AccountBalanceRead;
use crate::registration::{RegistrationTable, RegistrationView};
use crate::types::{ObjectID, RegistrationId, ScheduleResult, SequenceNumber};
use std::collections::{BTreeMap, VecDeque};
use vstd::prelude::*;

verus! {

/// Represents the state of an account that has scheduled withdraw reservations.
#[derive(Debug)]
pub struct AccountState {
    /// Transactions that contain withdraw reservations in this account.
    /// We have not yet reserved these withdraws because we cannot
    /// yet guarantee that there is enough balance for them, and we have
    /// not yet settled the dependent accumulator version.
    pub enqueued: VecDeque<RegistrationId>,
    /// Map from each accumulator version to the total amount of withdraws that
    /// have been currently reserved at that accumulator version.
    /// Each entry will be removed when the accumulator version is settled,
    /// and the amount will be added back to the last_known_min_balance.
    pub reserved: BTreeMap<SequenceNumber, u64>,
    /// The guaranteed minimum balance of the account based on the most recent settlement,
    /// as well as all reserved withdraws.
    pub last_known_min_balance: i128,
}

/// The contents of an [`AccountState`].
#[verifier::ext_equal]
pub ghost struct AccountView {
    pub enqueued: Seq<RegistrationId>,
    pub reserved: Map<SequenceNumber, u64>,
    pub last_known_min_balance: int,
}

impl View for AccountState {
    type V = AccountView;

    open spec fn view(&self) -> AccountView {
        AccountView {
            enqueued: self.enqueued@,
            reserved: self.reserved@,
            last_known_min_balance: self.last_known_min_balance as int,
        }
    }
}

/// What a waiting transaction asks of one account: the amount to reserve there, and the
/// accumulator version at which it was scheduled.
pub ghost struct Request {
    pub accumulator_version: SequenceNumber,
    pub amount: u64,
}

/// What the registration `id` asks of `account`.
pub open spec fn request(
    registrations: Map<RegistrationId, RegistrationView>,
    account: ObjectID,
    id: RegistrationId,
) -> Request {
    Request {
        accumulator_version: registrations[id].accumulator_version,
        amount: registrations[id].pending_accounts[account],
    }
}

/// What the registrations of a queue ask of `account`, in the order of the queue.
pub open spec fn requests(
    registrations: Map<RegistrationId, RegistrationView>,
    account: ObjectID,
    queue: Seq<RegistrationId>,
) -> Seq<Request> {
    Seq::new(queue.len(), |i: int| request(registrations, account, queue[i]))
}

/// Whether the registration `id` still waits for `account`.
pub open spec fn waits_for(
    registrations: Map<RegistrationId, RegistrationView>,
    account: ObjectID,
    id: RegistrationId,
) -> bool {
    registrations.contains_key(id) && registrations[id].pending_accounts.contains_key(account)
}

/// Whether every registration of a queue still waits for `account`.
pub open spec fn all_wait_for(
    registrations: Map<RegistrationId, RegistrationView>,
    account: ObjectID,
    queue: Seq<RegistrationId>,
) -> bool {
    forall|i: int| 0 <= i < queue.len() ==> #[trigger] waits_for(registrations, account, queue[i])
}

/// A queue without the registrations at its end from the identifier `first` on.
pub open spec fn cut_back(queue: Seq<RegistrationId>, first: RegistrationId) -> Seq<RegistrationId>
    decreases queue.len(),
{
    if queue.len() > 0 && queue.last() >= first {
        cut_back(queue.drop_last(), first)
    } else {
        queue
    }
}

impl AccountView {
    /// An account with nothing waiting and nothing reserved.
    pub open spec fn with_balance(balance: int) -> Self {
        AccountView {
            enqueued: Seq::empty(),
            reserved: Map::empty(),
            last_known_min_balance: balance,
        }
    }

    /// Nothing waits, and nothing is reserved that a settlement would have to give back.
    pub open spec fn is_empty(self) -> bool {
        self.enqueued.len() == 0 && self.reserved.is_empty()
    }

    /// The amount reserved at one accumulator version.
    pub open spec fn reserved_at(self, version: SequenceNumber) -> u64 {
        if self.reserved.contains_key(version) {
            self.reserved[version]
        } else {
            0
        }
    }

    /// The account with more registrations at the end of its queue.
    pub open spec fn enqueue(self, ids: Seq<RegistrationId>) -> Self {
        AccountView { enqueued: self.enqueued + ids, ..self }
    }

    /// The account without the registrations at the end of its queue from the identifier `first`
    /// on.
    pub open spec fn cut_back(self, first: RegistrationId) -> Self {
        AccountView { enqueued: cut_back(self.enqueued, first), ..self }
    }

    /// A request is granted once its accumulator version is settled, whatever the balance, and
    /// before that if the guaranteed minimum balance covers it.
    pub open spec fn grants(self, request: Request, settled: SequenceNumber) -> bool {
        request.accumulator_version <= settled || request.amount <= self.last_known_min_balance
    }

    /// The account once the request at the head of its queue is granted.
    pub open spec fn reserve(self, request: Request) -> Self {
        let version = request.accumulator_version;
        AccountView {
            enqueued: self.enqueued.drop_first(),
            reserved: self.reserved.insert(
                version,
                (self.reserved_at(version) + request.amount) as u64,
            ),
            last_known_min_balance: self.last_known_min_balance - request.amount,
        }
    }

    /// Whether the numbers that [`AccountView::reserve`] gives can be represented.
    pub open spec fn reserve_fits(self, request: Request) -> bool {
        &&& self.reserved_at(request.accumulator_version) + request.amount <= u64::MAX
        &&& i128::MIN <= self.last_known_min_balance - request.amount
    }

    /// The account once its queue, which makes these requests, is served from its head for as
    /// long as requests are granted.
    pub open spec fn reserve_all(self, requests: Seq<Request>, settled: SequenceNumber) -> Self
        decreases requests.len(),
    {
        if requests.len() > 0 && self.grants(requests[0], settled) {
            self.reserve(requests[0]).reserve_all(requests.drop_first(), settled)
        } else {
            self
        }
    }

    /// How many requests [`AccountView::reserve_all`] grants.
    pub open spec fn granted_count(self, requests: Seq<Request>, settled: SequenceNumber) -> nat
        decreases requests.len(),
    {
        if requests.len() > 0 && self.grants(requests[0], settled) {
            1 + self.reserve(requests[0]).granted_count(requests.drop_first(), settled)
        } else {
            0
        }
    }

    /// Whether the numbers that [`AccountView::reserve_all`] passes through can be represented.
    pub open spec fn reserve_all_fits(
        self,
        requests: Seq<Request>,
        settled: SequenceNumber,
    ) -> bool
        decreases requests.len(),
    {
        requests.len() > 0 && self.grants(requests[0], settled) ==> {
            &&& self.reserve_fits(requests[0])
            &&& self.reserve(requests[0]).reserve_all_fits(requests.drop_first(), settled)
        }
    }

    /// The account once `version` is settled: what was reserved there is given back.
    pub open spec fn settle_version(self, version: SequenceNumber) -> Self {
        AccountView {
            reserved: self.reserved.remove(version),
            last_known_min_balance: self.last_known_min_balance + self.reserved_at(version),
            ..self
        }
    }

    /// The account once a settlement has changed its balance.
    pub open spec fn settle_change(self, change: int) -> Self {
        AccountView { last_known_min_balance: self.last_known_min_balance + change, ..self }
    }

    /// The account once a settlement has given back what was reserved at the version `due`, if
    /// any, and has changed its balance.
    pub open spec fn settle(self, due: Option<SequenceNumber>, change: int) -> Self {
        match due {
            Some(version) => self.settle_version(version).settle_change(change),
            None => self.settle_change(change),
        }
    }

    /// Whether something is reserved at the version `due`, if any, and the numbers that
    /// [`AccountView::settle`] passes through can be represented.
    pub open spec fn settle_fits(self, due: Option<SequenceNumber>, change: int) -> bool {
        &&& due matches Some(version) ==> {
            &&& self.reserved.contains_key(version)
            &&& self.settle_version(version).last_known_min_balance <= i128::MAX
        }
        &&& i128::MIN <= self.settle(due, change).last_known_min_balance <= i128::MAX
    }
}

/// Serving a queue takes as many registrations off its head as requests are granted.
pub proof fn lemma_reserve_all_takes_prefix(
    account: AccountView,
    requests: Seq<Request>,
    settled: SequenceNumber,
)
    requires
        requests.len() == account.enqueued.len(),
    ensures
        account.granted_count(requests, settled) <= account.enqueued.len(),
        account.reserve_all(requests, settled).enqueued == account.enqueued.skip(
            account.granted_count(requests, settled) as int,
        ),
    decreases requests.len(),
{
    if requests.len() > 0 && account.grants(requests[0], settled) {
        let next = account.reserve(requests[0]);
        lemma_reserve_all_takes_prefix(next, requests.drop_first(), settled);
        let count = next.granted_count(requests.drop_first(), settled);
        assert(next.enqueued.skip(count as int) =~= account.enqueued.skip((count + 1) as int));
    } else {
        assert(account.enqueued.skip(0) =~= account.enqueued);
    }
}

/// What was put at the end of a queue is cut off again.
pub proof fn lemma_cut_back_undoes(
    queue: Seq<RegistrationId>,
    ids: Seq<RegistrationId>,
    first: RegistrationId,
)
    requires
        forall|i: int| 0 <= i < queue.len() ==> #[trigger] queue[i] < first,
        forall|i: int| 0 <= i < ids.len() ==> #[trigger] ids[i] >= first,
    ensures
        cut_back(queue + ids, first) == queue,
    decreases ids.len(),
{
    if ids.len() > 0 {
        assert((queue + ids).last() == ids.last());
        assert((queue + ids).drop_last() =~= queue + ids.drop_last());
        lemma_cut_back_undoes(queue, ids.drop_last(), first);
    } else {
        assert(queue + ids =~= queue);
    }
}

impl AccountState {
    /// The state of an account of which only its settled balance is known.
    pub fn new<B: AccountBalanceRead>(
        balance_read: &B,
        account_id: &ObjectID,
        last_known_settled_version: SequenceNumber,
    ) -> (state: Self)
        ensures
            state@ == AccountView::with_balance(
                balance_read.account_balance(*account_id, last_known_settled_version) as int,
            ),
            state.enqueued@.len() == 0,
            state.reserved@.dom() == Set::<SequenceNumber>::empty(),
            state.last_known_min_balance == balance_read.account_balance(
                *account_id,
                last_known_settled_version,
            ),
    {
        let cur_balance = balance_read.get_account_balance(account_id, last_known_settled_version);
        AccountState {
            enqueued: VecDeque::new(),
            reserved: BTreeMap::new(),
            last_known_min_balance: cur_balance as i128,
        }
    }

    pub fn add_registrations(&mut self, registrations: Vec<RegistrationId>)
        ensures
            final(self)@ == old(self)@.enqueue(registrations@),
            final(self).enqueued@ == old(self).enqueued@ + registrations@,
            final(self).reserved@ == old(self).reserved@,
            final(self).last_known_min_balance == old(self).last_known_min_balance,
    {
        let mut i: usize = 0;
        while i < registrations.len()
            invariant
                i <= registrations.len(),
                self.enqueued@ =~= old(self).enqueued@ + registrations@.take(i as int),
                self.reserved == old(self).reserved,
                self.last_known_min_balance == old(self).last_known_min_balance,
            decreases registrations.len() - i,
        {
            self.enqueued.push_back(registrations[i]);
            i = i + 1;
        }
        assert(registrations@.take(i as int) =~= registrations@);
    }

    /// Takes the registrations at the end of the queue back, from the identifier `first` on.
    pub fn take_back(&mut self, first: RegistrationId)
        ensures
            final(self)@ == old(self)@.cut_back(first),
            final(self).reserved@ == old(self).reserved@,
            final(self).last_known_min_balance == old(self).last_known_min_balance,
            final(self).enqueued@.is_prefix_of(old(self).enqueued@),
            final(self).enqueued@.len() > 0 ==> final(self).enqueued@.last() < first,
            forall|i: int|
                final(self).enqueued@.len() <= i < old(self).enqueued@.len() ==> #[trigger] old(
                    self,
                ).enqueued@[i] >= first,
    {
        while self.enqueued.len() > 0 && self.enqueued[self.enqueued.len() - 1] >= first
            invariant
                cut_back(self.enqueued@, first) == cut_back(old(self).enqueued@, first),
                self.enqueued@.is_prefix_of(old(self).enqueued@),
                forall|i: int|
                    self.enqueued@.len() <= i < old(self).enqueued@.len() ==> #[trigger] old(
                        self,
                    ).enqueued@[i] >= first,
                self.reserved == old(self).reserved,
                self.last_known_min_balance == old(self).last_known_min_balance,
            decreases self.enqueued.len(),
        {
            self.enqueued.pop_back();
        }
    }

    /// Try to schedule the next reservation for the given account.
    /// The next reservation can be scheduled if either:
    /// 1. The accumulator version of the transaction is not beyond the last known settled version,
    ///    meaning that the previous accumulator version has been fully settled. What the account
    ///    holds is then known, and its balance plays no part here.
    /// 2. We can guarantee that the account has enough balance to satisfy the reservation.
    pub fn try_schedule_next_reservation(
        &mut self,
        account_id: &ObjectID,
        last_known_settled_version: SequenceNumber,
        registrations: &mut RegistrationTable,
    ) -> (scheduled: Option<RegistrationId>)
        requires
            old(self)@.enqueued.len() > 0 ==> {
                let id = old(self)@.enqueued[0];
                let next = request(old(registrations)@, *account_id, id);
                &&& waits_for(old(registrations)@, *account_id, id)
                &&& old(self)@.grants(next, last_known_settled_version) ==> old(
                    self,
                )@.reserve_fits(next)
            },
        ensures
            final(registrations).next_id() == old(registrations).next_id(),
            ({
                let id = old(self)@.enqueued[0];
                let next = request(old(registrations)@, *account_id, id);
                if old(self)@.enqueued.len() > 0 && old(self)@.grants(
                    next,
                    last_known_settled_version,
                ) {
                    &&& scheduled == Some(id)
                    &&& final(self)@ == old(self)@.reserve(next)
                    &&& final(registrations)@ == old(registrations)@.insert(
                        id,
                        old(registrations)@[id].account_ready(*account_id),
                    )
                } else {
                    &&& scheduled is None
                    &&& final(self)@ == old(self)@
                    &&& final(registrations)@ == old(registrations)@
                }
            }),
            scheduled is Some <==> old(self).enqueued@.len() > 0 && {
                let waits = old(registrations)@[old(self).enqueued@[0]];
                ||| waits.accumulator_version <= last_known_settled_version
                ||| waits.pending_accounts[*account_id] <= old(self).last_known_min_balance
            },
            scheduled is None ==> {
                &&& final(self).enqueued@ == old(self).enqueued@
                &&& final(self).reserved@ == old(self).reserved@
                &&& final(self).last_known_min_balance == old(self).last_known_min_balance
                &&& final(registrations)@ == old(registrations)@
            },
            scheduled matches Some(id) ==> {
                let waits = old(registrations)@[id];
                let told = final(registrations)@[id];
                let version = waits.accumulator_version;
                let amount = waits.pending_accounts[*account_id];
                let reserved = old(self).reserved@;
                &&& id == old(self).enqueued@[0]
                &&& final(self).enqueued@ == old(self).enqueued@.skip(1)
                &&& final(self).last_known_min_balance == old(self).last_known_min_balance - amount
                &&& final(self).reserved@.dom() == reserved.dom().insert(version)
                &&& final(self).reserved@[version] == amount + if reserved.contains_key(version) {
                    reserved[version] as int
                } else {
                    0
                }
                &&& forall|other: SequenceNumber|
                    other != version && reserved.contains_key(other)
                        ==> #[trigger] final(self).reserved@[other] == reserved[other]
                &&& final(registrations)@.dom() == old(registrations)@.dom()
                &&& forall|other: RegistrationId|
                    other != id && old(registrations)@.contains_key(other)
                        ==> #[trigger] final(registrations)@[other] == old(registrations)@[other]
                &&& told.accumulator_version == version
                &&& told.pending_accounts == waits.pending_accounts.remove(*account_id)
                &&& told.result == if forall|other: ObjectID|
                    waits.pending_accounts.contains_key(other) ==> other == *account_id {
                    ScheduleResult::ReadyForExecution
                } else {
                    waits.result
                }
            },
    {
        if self.enqueued.len() == 0 {
            return None;
        }
        let id: RegistrationId = self.enqueued[0];
        let (accumulator_version, reserved_amount): (SequenceNumber, u64) = match registrations.get(
            &id,
        ) {
            Some(registration) => match registration.pending_accounts.get(account_id) {
                Some(amount) => (registration.accumulator_version, *amount),
                None => return None,
            },
            None => return None,
        };
        if accumulator_version > last_known_settled_version && reserved_amount as i128
            > self.last_known_min_balance {
            return None;
        }
        self.enqueued.pop_front();
        let executing: u64 = match self.reserved.get(&accumulator_version) {
            Some(amount) => *amount,
            None => 0,
        };
        self.reserved.insert(accumulator_version, executing + reserved_amount);
        self.last_known_min_balance = self.last_known_min_balance - reserved_amount as i128;
        registrations.account_ready(&id, account_id);
        proof {
            let pending = old(registrations)@[id].pending_accounts;
            let left = pending.remove(*account_id);
            if forall|other: ObjectID| pending.contains_key(other) ==> other == *account_id {
                assert(left.dom() =~= Set::empty());
            }
            if left.is_empty() {
                assert forall|other: ObjectID| pending.contains_key(other) implies other
                    == *account_id by {
                    assert(!left.contains_key(other));
                }
            }
        }
        Some(id)
    }

    pub fn settle_accumulator_version(&mut self, accumulator_version: SequenceNumber)
        requires
            old(self)@.reserved.contains_key(accumulator_version),
            old(self)@.settle_version(accumulator_version).last_known_min_balance <= i128::MAX,
        ensures
            final(self)@ == old(self)@.settle_version(accumulator_version),
            final(self).enqueued@ == old(self).enqueued@,
            final(self).reserved@ == old(self).reserved@.remove(accumulator_version),
            final(self).last_known_min_balance == old(self).last_known_min_balance + old(
                self,
            ).reserved@[accumulator_version],
    {
        if let Some(executing_reservations) = self.reserved.remove(&accumulator_version) {
            self.last_known_min_balance = self.last_known_min_balance
                + executing_reservations as i128;
        }
    }

    pub fn settle_balance_change(&mut self, balance_change: i128)
        requires
            i128::MIN <= old(self)@.settle_change(balance_change as int).last_known_min_balance
                <= i128::MAX,
        ensures
            final(self)@ == old(self)@.settle_change(balance_change as int),
            final(self).enqueued@ == old(self).enqueued@,
            final(self).reserved@ == old(self).reserved@,
            final(self).last_known_min_balance == old(self).last_known_min_balance
                + balance_change,
    {
        self.last_known_min_balance = self.last_known_min_balance + balance_change;
    }

    pub fn is_empty(&self) -> (empty: bool)
        ensures
            empty == self@.is_empty(),
            empty <==> self.enqueued@.len() == 0 && forall|version: SequenceNumber|
                !(#[trigger] self.reserved@.contains_key(version)),
    {
        proof {
            if forall|version: SequenceNumber| !(#[trigger] self.reserved@.contains_key(version)) {
                assert(self.reserved@.dom() =~= Set::empty());
            }
        }
        self.enqueued.len() == 0 && self.reserved.is_empty()
    }

    /// Whether the account can go through a settlement to `settled` and then serve its queue: it
    /// has something to give back at the version `due`, if any, and no number overflows.
    pub fn can_settle(
        &self,
        due: Option<SequenceNumber>,
        change: i128,
        account_id: &ObjectID,
        settled: SequenceNumber,
        registrations: &RegistrationTable,
    ) -> (possible: bool)
        requires
            all_wait_for(registrations@, *account_id, self@.enqueued),
        ensures
            possible == (self@.settle_fits(due, change as int) && self@.settle(
                due,
                change as int,
            ).reserve_all_fits(requests(registrations@, *account_id, self@.enqueued), settled)),
    {
        let mut reserved: BTreeMap<SequenceNumber, u64> = self.reserved.clone();
        let mut balance: i128 = self.last_known_min_balance;
        if let Some(version) = due {
            match reserved.remove(&version) {
                None => return false,
                Some(amount) => match balance.checked_add(amount as i128) {
                    None => return false,
                    Some(sum) => balance = sum,
                },
            }
        }
        match balance.checked_add(change) {
            None => return false,
            Some(sum) => balance = sum,
        }
        let ghost all = requests(registrations@, *account_id, self@.enqueued);
        let ghost start = self@.settle(due, change as int);
        let ghost mut trial = start;
        let mut i: usize = 0;
        assert(all.skip(0) =~= all);
        while i < self.enqueued.len()
            invariant
                i <= self.enqueued.len(),
                all == requests(registrations@, *account_id, self@.enqueued),
                start == self@.settle(due, change as int),
                all_wait_for(registrations@, *account_id, self@.enqueued),
                trial.reserved == reserved@,
                trial.last_known_min_balance == balance,
                start.reserve_all_fits(all, settled) == trial.reserve_all_fits(
                    all.skip(i as int),
                    settled,
                ),
            ensures
                start.reserve_all_fits(all, settled),
            decreases self.enqueued.len() - i,
        {
            let id: RegistrationId = self.enqueued[i];
            assert(waits_for(registrations@, *account_id, self@.enqueued[i as int]));
            let ghost next = all.skip(i as int)[0];
            assert(all.skip(i as int).drop_first() =~= all.skip(i + 1));
            let (version, amount): (SequenceNumber, u64) = match registrations.get(&id) {
                Some(registration) => match registration.pending_accounts.get(account_id) {
                    Some(amount) => (registration.accumulator_version, *amount),
                    None => return false,
                },
                None => return false,
            };
            if version > settled && amount as i128 > balance {
                break;
            }
            let executing: u64 = match reserved.get(&version) {
                Some(amount) => *amount,
                None => 0,
            };
            match executing.checked_add(amount) {
                None => return false,
                Some(sum) => {
                    reserved.insert(version, sum);
                },
            }
            match balance.checked_sub(amount as i128) {
                None => return false,
                Some(rest) => balance = rest,
            }
            proof {
                trial = trial.reserve(next);
            }
            i = i + 1;
        }
        true
    }
}

} // verus!
