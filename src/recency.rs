//! The order in which cache slots were last used, kept by `lru::LruCache`.

use vstd::prelude::*;

verus! {

#[verifier::external_type_specification]
#[verifier::external_body]
#[verifier::reject_recursive_types(K)]
#[verifier::reject_recursive_types(V)]
#[verifier::reject_recursive_types(S)]
pub struct ExLruCache<K, V, S>(lru::LruCache<K, V, S>);

#[verifier::external_type_specification]
#[verifier::external_body]
pub struct ExLruHasher(lru::DefaultHasher);

/// The keys of an LRU cache, from the least recently used to the most recently used.
pub uninterp spec fn recency(c: lru::LruCache<i64, ()>) -> Seq<i64>;

/// The number of keys an LRU cache was made to hold.
pub uninterp spec fn capacity(c: lru::LruCache<i64, ()>) -> nat;

/// `s` with `k` moved to the most recently used end.
pub open spec fn promote(s: Seq<i64>, k: i64) -> Seq<i64> {
    s.remove(s.index_of(k)).push(k)
}

/// Relies on `LruCache::new`: an empty cache that holds at most `cap` keys.
#[verifier::external_body]
pub(crate) fn lru_new(cap: usize) -> (r: lru::LruCache<i64, ()>)
    requires
        cap > 0,
    ensures
        recency(r) == Seq::<i64>::empty(),
        capacity(r) == cap,
{
    lru::LruCache::new(std::num::NonZeroUsize::new(cap).unwrap())
}

/// Relies on `LruCache::get`: a present key is found and becomes the most
/// recently used; an absent key changes nothing.
#[verifier::external_body]
pub(crate) fn lru_touch(c: &mut lru::LruCache<i64, ()>, k: i64) -> (r: bool)
    ensures
        r == recency(*old(c)).contains(k),
        r ==> recency(*final(c)) == promote(recency(*old(c)), k),
        !r ==> recency(*final(c)) == recency(*old(c)),
        capacity(*final(c)) == capacity(*old(c)),
        recency(*final(c)).no_duplicates(),
        recency(*final(c)).len() <= capacity(*final(c)),
{
    c.get(&k).is_some()
}

/// Relies on `LruCache::push` for a key that is not present: below capacity the
/// key is added as the most recently used; at capacity the least recently used
/// key is removed and returned.
#[verifier::external_body]
pub(crate) fn lru_push(c: &mut lru::LruCache<i64, ()>, k: i64) -> (r: Option<i64>)
    requires
        !recency(*old(c)).contains(k),
    ensures
        capacity(*final(c)) == capacity(*old(c)),
        recency(*old(c)).len() < capacity(*old(c)) ==> r is None && recency(*final(c)) == recency(
            *old(c),
        ).push(k),
        recency(*old(c)).len() >= capacity(*old(c)) ==> r == Some(recency(*old(c))[0]) && recency(
            *final(c),
        ) == recency(*old(c)).drop_first().push(k),
        recency(*final(c)).no_duplicates(),
        recency(*final(c)).len() <= capacity(*final(c)),
{
    c.push(k, ()).map(|(key, _)| key)
}

} // verus!
