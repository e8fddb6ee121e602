use vstd::prelude::*;
use lru_time_cache::LruCache;
use crate::selection::{PendingEntry, PendingEntryView};

verus! {

#[verifier::external_type_specification]
#[verifier::external_body]
#[verifier::reject_recursive_types(Key)]
#[verifier::reject_recursive_types(Value)]
pub struct ExLruCache<Key, Value>(LruCache<Key, Value>);

/// The pending requests, by request identifier.
pub type RequestCache = LruCache<u64, PendingEntry>;

/// The entries that the cache holds, by request.
pub uninterp spec fn cache_entries(c: RequestCache) -> Map<u64, PendingEntryView>;

/// The requests that the cache holds, least recently used first.
pub uninterp spec fn cache_order(c: RequestCache) -> Seq<u64>;

/// The most entries that the cache holds.
pub uninterp spec fn cache_capacity(c: RequestCache) -> nat;

/// What every cache without an expiry time keeps: one recency slot for each
/// entry, and the other way round.
pub open spec fn cache_consistent(c: RequestCache) -> bool {
    &&& cache_entries(c).dom() == cache_order(c).to_set()
    &&& cache_order(c).no_duplicates()
}

/// How many of the least recently used entries an insert of a new key drops
/// from `n` entries, to stay within `capacity`.
pub open spec fn evicted_count(n: nat, capacity: nat) -> nat {
    if n >= capacity {
        (n - capacity + 1) as nat
    } else {
        0
    }
}

/// Relies on `LruCache::with_capacity`: an empty cache, without expiry time,
/// bounded by `capacity` entries.
#[verifier::external_body]
pub(crate) fn cache_with_capacity(capacity: usize) -> (r: RequestCache)
    ensures
        cache_entries(r).dom() == Set::<u64>::empty(),
        cache_order(r) == Seq::<u64>::empty(),
        cache_capacity(r) == capacity as nat,
        cache_consistent(r),
{
    LruCache::with_capacity(capacity)
}

/// Relies on `LruCache::remove`: takes the entry of `key` out of the map
/// and the key out of the recency list, and hands the entry back.
#[verifier::external_body]
pub(crate) fn cache_remove(c: &mut RequestCache, key: u64) -> (r: Option<PendingEntry>)
    requires
        cache_consistent(*old(c)),
    ensures
        r is Some == cache_entries(*old(c)).contains_key(key),
        r matches Some(e) ==> e@ == cache_entries(*old(c))[key],
        cache_entries(*final(c)) == cache_entries(*old(c)).remove(key),
        cache_order(*final(c)) == cache_order(*old(c)).remove_value(key),
        cache_order(*final(c)).len() <= cache_order(*old(c)).len(),
        cache_capacity(*final(c)) == cache_capacity(*old(c)),
        cache_consistent(*final(c)),
{
    c.remove(&key)
}

/// Relies on `LruCache::insert` for a key that the cache does not hold:
/// when the cache is full, the least recently used entries are dropped until
/// one slot is free; the new key then becomes the most recently used.
#[verifier::external_body]
pub(crate) fn cache_insert(c: &mut RequestCache, key: u64, value: PendingEntry)
    requires
        cache_consistent(*old(c)),
        !cache_entries(*old(c)).contains_key(key),
        cache_capacity(*old(c)) > 0,
    ensures
        ({
            let o = cache_order(*old(c));
            let kept = o.subrange(evicted_count(o.len(), cache_capacity(*old(c))) as int, o.len() as int);
            &&& cache_order(*final(c)) == kept.push(key)
            &&& cache_entries(*final(c)) == cache_entries(*old(c)).restrict(kept.to_set()).insert(key, value@)
        }),
        cache_capacity(*final(c)) == cache_capacity(*old(c)),
        cache_consistent(*final(c)),
{
    let _ = c.insert(key, value);
}

} // verus!
