//! Sets and maps of accounts as lists.
use crate::types::{ObjectID, RegistrationId};
use std::collections::{BTreeMap, BTreeSet};
use vstd::prelude::*;
use vstd::std_specs::iter::IteratorSpec;

verus! {

/// Lists the accounts of a set, each once.
pub(crate) fn accounts_of(set: &BTreeSet<ObjectID>) -> (accounts: Vec<ObjectID>)
    ensures
        accounts@.no_duplicates(),
        accounts@.to_set() == set@,
{
    let mut accounts: Vec<ObjectID> = Vec::new();
    for account in iter: set.iter()
        invariant
            accounts@ =~= iter.seq().unref().take(iter.index()),
    {
        accounts.push(*account);
    }
    assert(accounts@ =~= set.iter().remaining().unref());
    accounts
}

/// Lists the keys of a map, each once.
pub(crate) fn keys_of<V>(map: &BTreeMap<ObjectID, V>) -> (accounts: Vec<ObjectID>)
    ensures
        accounts@.no_duplicates(),
        accounts@.to_set() == map@.dom(),
{
    let mut accounts: Vec<ObjectID> = Vec::new();
    for account in iter: map.keys()
        invariant
            accounts@ =~= iter.seq().unref().take(iter.index()),
    {
        accounts.push(*account);
    }
    assert(accounts@ =~= map.keys().remaining().unref());
    accounts
}

/// Adds accounts to a set.
pub(crate) fn extend(set: &mut BTreeSet<ObjectID>, accounts: &Vec<ObjectID>)
    ensures
        final(set)@ == old(set)@.union(accounts@.to_set()),
{
    let mut i: usize = 0;
    assert(set@ =~= set@.union(accounts@.take(0).to_set()));
    while i < accounts.len()
        invariant
            i <= accounts.len(),
            set@ == old(set)@.union(accounts@.take(i as int).to_set()),
        decreases accounts.len() - i,
    {
        set.insert(accounts[i]);
        proof {
            lemma_take_next(accounts@, i as int);
        }
        assert(set@ =~= old(set)@.union(accounts@.take(i + 1).to_set()));
        i = i + 1;
    }
    assert(accounts@.take(i as int) =~= accounts@);
}

/// Adds registrations to a set.
pub(crate) fn union(set: &mut BTreeSet<RegistrationId>, more: &BTreeSet<RegistrationId>)
    ensures
        final(set)@ == old(set)@.union(more@),
{
    assert(set@ =~= set@.union(more.iter().remaining().unref().take(0).to_set()));
    for id in iter: more.iter()
        invariant
            set@ == old(set)@.union(iter.seq().unref().take(iter.index()).to_set()),
    {
        set.insert(*id);
        proof {
            lemma_take_next(iter.seq().unref(), iter.index());
        }
        assert(set@ =~= old(set)@.union(iter.seq().unref().take(iter.index() + 1).to_set()));
    }
    assert(more.iter().remaining().unref().take(more.iter().remaining().len() as int)
        =~= more.iter().remaining().unref());
}

/// One element more of a list is one element more of its set.
pub(crate) proof fn lemma_take_next<T>(s: Seq<T>, i: int)
    requires
        0 <= i < s.len(),
    ensures
        s.take(i + 1).to_set() == s.take(i).to_set().insert(s[i]),
        s.no_duplicates() ==> !s.take(i).to_set().contains(s[i]),
{
    let more = s.take(i + 1);
    assert forall|x: T| more.contains(x) <==> s.take(i).contains(x) || x == s[i] by {
        if s.take(i).contains(x) {
            let j = s.take(i).index_of(x);
            assert(more[j] == x);
        }
        assert(more[i] == s[i]);
        if more.contains(x) && x != s[i] {
            let j = more.index_of(x);
            assert(s.take(i)[j] == x);
        }
    }
    assert(more.to_set() =~= s.take(i).to_set().insert(s[i]));
    if s.no_duplicates() && s.take(i).contains(s[i]) {
        let j = s.take(i).index_of(s[i]);
        assert(s[j] == s[i]);
    }
}

} // verus!
