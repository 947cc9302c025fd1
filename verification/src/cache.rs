//! A small in-memory cache whose entries expire.

use vstd::prelude::*;
use std::collections::HashMap;
use vstd::std_specs::hash::obeys_key_model;

verus! {

broadcast use vstd::std_specs::hash::group_hash_axioms;

/// A small in-memory cache with a time-to-live per entry: an entry inserted
/// with `ttl` is served while the current time is at most `ttl`.
pub struct Cache<K, V> {
    entries: HashMap<K, (V, u64)>,
}

impl<K, V> View for Cache<K, V> {
    type V = Map<K, (V, u64)>;

    /// Each key's value and expiry time.
    closed spec fn view(&self) -> Map<K, (V, u64)> {
        self.entries@
    }
}

/// `key` has an entry that has not expired at `now`: one that [`Cache::get`]
/// serves.
pub open spec fn live<K, V>(m: Map<K, (V, u64)>, key: K, now: u64) -> bool {
    m.contains_key(key) && now <= m[key].1
}

/// The entries of `m` that have not expired at `now`.
pub open spec fn unexpired<K, V>(m: Map<K, (V, u64)>, now: u64) -> Map<K, (V, u64)> {
    m.restrict(Set::new(|k: K| m.contains_key(k) && m[k].1 >= now))
}

/// Whether an entry that expires at `ttl` is kept at `now`.
fn keeps(ttl: u64, now: u64) -> (r: bool)
    ensures
        r == (ttl >= now),
{
    ttl >= now
}

/// `HashMap::retain`, keeping the entries that have not expired at `now`:
/// its documentation says it removes exactly the entries for which the
/// closure returns false. The closure is [`keeps`] on the entry's expiry time.
#[verifier::external_body]
fn retain_unexpired<K, V>(m: &mut HashMap<K, (V, u64)>, now: u64)
    ensures
        final(m)@ == unexpired(old(m)@, now),
{
    m.retain(|_, e| keeps(e.1, now));
}

impl<K: std::hash::Hash + Eq + Clone, V: Clone> Cache<K, V> {
    /// An empty cache.
    pub fn new() -> (c: Self)
        ensures
            c@ == Map::<K, (V, u64)>::empty(),
    {
        Cache { entries: HashMap::new() }
    }

    /// Stores `value` under `key`, to expire after time `ttl`, replacing any
    /// entry the key had. The map's contents are stated for keys whose `Hash`
    /// and `Eq` behave as a key model.
    pub fn insert(&mut self, key: K, value: V, ttl: u64)
        ensures
            obeys_key_model::<K>() ==> final(self)@ == old(self)@.insert(key, (value, ttl)),
    {
        self.entries.insert(key, (value, ttl));
    }

    /// A clone of the value under `key` if it has not expired at `now`
    /// (`now` at most its expiry time), else `None`.
    pub fn get(&self, key: &K, now: u64) -> (r: Option<V>)
        ensures
            obeys_key_model::<K>() ==> match r {
                Some(v) => live(self@, *key, now) && cloned(self@[*key].0, v),
                None => !live(self@, *key, now),
            },
    {
        match self.entries.get(key) {
            Some(e) => {
                if now <= e.1 {
                    Some(e.0.clone())
                } else {
                    None
                }
            },
            None => None,
        }
    }

    /// Drops every entry that has expired at `now` (expiry time before
    /// `now`).
    pub fn evict_expired(&mut self, now: u64)
        ensures
            final(self)@ == unexpired(old(self)@, now),
    {
        retain_unexpired(&mut self.entries, now);
    }
}

/// What a read gives back of a write: right after `key` is stored with `value`
/// and expiry time `ttl`, a read at `now` serves `value` exactly when `now`
/// is at most `ttl`, and every other key is served as before.
pub proof fn lemma_read_after_write<K, V>(m: Map<K, (V, u64)>, key: K, value: V, ttl: u64, now: u64, other: K)
    requires
        other != key,
    ensures
        live(m.insert(key, (value, ttl)), key, now) <==> now <= ttl,
        m.insert(key, (value, ttl))[key].0 == value,
        live(m.insert(key, (value, ttl)), other, now) <==> live(m, other, now),
        live(m, other, now) ==> m.insert(key, (value, ttl))[other] == m[other],
{
}

/// Eviction at `now` changes no read at `now` or later: it drops only entries
/// that such a read would not serve, and keeps the others as they were.
pub proof fn lemma_evict_keeps_reads<K, V>(m: Map<K, (V, u64)>, now: u64, later: u64, key: K)
    requires
        now <= later,
    ensures
        live(unexpired(m, now), key, later) <==> live(m, key, later),
        live(m, key, later) ==> unexpired(m, now)[key] == m[key],
{
}

} // verus!
