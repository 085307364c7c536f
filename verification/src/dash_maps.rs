//! The two concurrent maps that hold the scheduler's state.
//!
//! A `DashMap` changes through a shared reference. The functions here take it by `&mut`, so that
//! what a map holds is fixed between two of their calls, and no other thread can hold a lock in it.
use crate::account_state::AccountState;
use crate::pending::PendingAccumulatorVersion;
use crate::types::{ObjectID, SequenceNumber};
use dashmap::DashMap;
use vstd::prelude::*;

verus! {

/// A map of the crate `dashmap`. What it holds is told by [`account_states`] and
/// [`pending_versions`].
#[verifier::external_type_specification]
#[verifier::external_body]
#[verifier::reject_recursive_types(K)]
#[verifier::reject_recursive_types(V)]
#[verifier::reject_recursive_types(S)]
pub struct ExDashMap<K, V, S>(dashmap::DashMap<K, V, S>);

/// The entries of a map from accounts to their states.
pub uninterp spec fn account_states(map: DashMap<ObjectID, AccountState>) -> Map<
    ObjectID,
    AccountState,
>;

/// The entries of a map from accumulator versions to what is outstanding at them.
pub uninterp spec fn pending_versions(
    map: DashMap<SequenceNumber, PendingAccumulatorVersion>,
) -> Map<SequenceNumber, PendingAccumulatorVersion>;

/// Calls `DashMap::new`, which makes a map without entries.
#[verifier::external_body]
pub(crate) fn new_account_states() -> (states: DashMap<ObjectID, AccountState>)
    ensures
        account_states(states).is_empty(),
{
    DashMap::new()
}

/// Calls `DashMap::remove`, which takes the entry of a key out of the map and hands it over, or
/// leaves the map as it is where the key has no entry.
#[verifier::external_body]
pub(crate) fn take_account_state(
    map: &mut DashMap<ObjectID, AccountState>,
    account_id: &ObjectID,
) -> (state: Option<AccountState>)
    ensures
        account_states(*final(map)) == account_states(*old(map)).remove(*account_id),
        match state {
            Some(state) => account_states(*old(map)).contains_key(*account_id) && account_states(
                *old(map),
            )[*account_id] == state,
            None => !account_states(*old(map)).contains_key(*account_id),
        },
{
    map.remove(account_id).map(|entry| entry.1)
}

/// Calls `DashMap::insert`, which sets the entry of a key, whether or not it had one.
#[verifier::external_body]
pub(crate) fn put_account_state(
    map: &mut DashMap<ObjectID, AccountState>,
    account_id: ObjectID,
    state: AccountState,
)
    ensures
        account_states(*final(map)) == account_states(*old(map)).insert(account_id, state),
{
    map.insert(account_id, state);
}

/// Calls `DashMap::new`, which makes a map without entries.
#[verifier::external_body]
pub(crate) fn new_pending_versions() -> (versions: DashMap<
    SequenceNumber,
    PendingAccumulatorVersion,
>)
    ensures
        pending_versions(versions).is_empty(),
{
    DashMap::new()
}

/// Calls `DashMap::remove`, which takes the entry of a key out of the map and hands it over, or
/// leaves the map as it is where the key has no entry.
#[verifier::external_body]
pub(crate) fn take_pending_version(
    map: &mut DashMap<SequenceNumber, PendingAccumulatorVersion>,
    version: &SequenceNumber,
) -> (pending: Option<PendingAccumulatorVersion>)
    ensures
        pending_versions(*final(map)) == pending_versions(*old(map)).remove(*version),
        match pending {
            Some(pending) => pending_versions(*old(map)).contains_key(*version)
                && pending_versions(*old(map))[*version] == pending,
            None => !pending_versions(*old(map)).contains_key(*version),
        },
{
    map.remove(version).map(|entry| entry.1)
}

/// Calls `DashMap::insert`, which sets the entry of a key, whether or not it had one.
#[verifier::external_body]
pub(crate) fn put_pending_version(
    map: &mut DashMap<SequenceNumber, PendingAccumulatorVersion>,
    version: SequenceNumber,
    pending: PendingAccumulatorVersion,
)
    ensures
        pending_versions(*final(map)) == pending_versions(*old(map)).insert(version, pending),
{
    map.insert(version, pending);
}

} // verus!
