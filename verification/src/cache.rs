//! The cache of answers to federation transactions, which forgets the least recently used one
//! first. It is an `LruCache` of the crate `lru-cache`.

use lru_cache::LruCache;
use std::hash::{BuildHasher, Hash};
use vstd::prelude::*;

use crate::entries::{found, inserted, refreshed};
use crate::response::Response;

verus! {

/// `lru_cache::LruCache`.
#[verifier::external_type_specification]
#[verifier::external_body]
#[verifier::reject_recursive_types(K)]
#[verifier::reject_recursive_types(V)]
#[verifier::reject_recursive_types(S)]
pub struct ExLruCache<K: Eq + Hash, V, S: BuildHasher>(LruCache<K, V, S>);

/// The cache: the key of a transaction with the answer to it.
pub type FederationTxnidCache = LruCache<Vec<u8>, Response>;

/// The answer to a transaction: the event identifiers, each with its outcome.
pub type Answer = Seq<(Seq<char>, Result<(), Seq<char>>)>;

/// The entries of a cache, the least recently used one first.
pub uninterp spec fn cached(cache: LruCache<Vec<u8>, Response>) -> Seq<
    (Seq<u8>, Seq<(Seq<char>, Result<(), Seq<char>>)>),
>;

/// How many entries a cache was made for.
pub uninterp spec fn cache_capacity(cache: LruCache<Vec<u8>, Response>) -> nat;

/// Calls `LruCache::new`: the cache is empty and has the capacity that was asked for.
#[verifier::external_body]
pub(crate) fn new_cache(capacity: usize) -> (cache: LruCache<Vec<u8>, Response>)
    ensures
        cached(cache) == Seq::<(Seq<u8>, Answer)>::empty(),
        cache_capacity(cache) == capacity,
{
    LruCache::new(capacity)
}

/// Calls `LruCache::get_mut`: hands out the value of the key, where there is one, and makes that
/// entry the most recently used one. The reference is handed on as a shared one.
#[verifier::external_body]
pub(crate) fn get_refreshed<'a>(
    cache: &'a mut LruCache<Vec<u8>, Response>,
    key: &Vec<u8>,
) -> (value: Option<&'a Response>)
    ensures
        match value {
            Some(answer) => found(cached(*old(cache)), key@) == Some(answer@),
            None => found(cached(*old(cache)), key@) is None,
        },
        cached(*final(cache)) == refreshed(cached(*old(cache)), key@),
        cache_capacity(*final(cache)) == cache_capacity(*old(cache)),
{
    cache.get_mut(key).map(|value| &*value)
}

/// Calls `LruCache::insert`: the entry becomes the most recently used one, in the place of an
/// earlier one with the same key, whose value is returned; where there are then more entries than
/// the capacity, the least recently used one is removed.
#[verifier::external_body]
pub(crate) fn insert_newest(
    cache: &mut LruCache<Vec<u8>, Response>,
    key: Vec<u8>,
    value: Response,
) -> (previous: Option<Response>)
    ensures
        match previous {
            Some(answer) => found(cached(*old(cache)), key@) == Some(answer@),
            None => found(cached(*old(cache)), key@) is None,
        },
        cached(*final(cache)) == inserted(
            cached(*old(cache)),
            cache_capacity(*old(cache)),
            key@,
            value@,
        ),
        cache_capacity(*final(cache)) == cache_capacity(*old(cache)),
{
    cache.insert(key, value)
}

/// Calls `LruCache::clear`: no entry is left, and the capacity is what it was.
#[verifier::external_body]
pub(crate) fn clear_entries(cache: &mut LruCache<Vec<u8>, Response>)
    ensures
        cached(*final(cache)) == Seq::<(Seq<u8>, Answer)>::empty(),
        cache_capacity(*final(cache)) == cache_capacity(*old(cache)),
{
    cache.clear()
}

/// Calls `LruCache::len`: the number of entries.
#[verifier::external_body]
pub(crate) fn entry_count(cache: &LruCache<Vec<u8>, Response>) -> (count: usize)
    ensures
        count == cached(*cache).len(),
{
    cache.len()
}

/// Calls `LruCache::capacity`: the capacity that the cache was made with.
#[verifier::external_body]
pub(crate) fn capacity_of(cache: &LruCache<Vec<u8>, Response>) -> (capacity: usize)
    ensures
        capacity == cache_capacity(*cache),
{
    cache.capacity()
}

} // verus!
