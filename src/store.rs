//! The recency-ordered cluster store, kept in `lru::LruCache`.

use vstd::prelude::*;
use std::num::NonZeroUsize;
use lru::LruCache;
use crate::cluster::LogCluster;

verus! {

#[verifier::external_type_specification]
#[verifier::external_body]
#[verifier::reject_recursive_types(K)]
#[verifier::reject_recursive_types(V)]
#[verifier::reject_recursive_types(S)]
pub struct ExLruCache<K, V, S>(LruCache<K, V, S>);

#[verifier::external_type_specification]
#[verifier::external_body]
pub struct ExDefaultHasher(lru::DefaultHasher);

/// The cache that holds the clusters, keyed by cluster id.
pub type ClusterCache = LruCache<usize, LogCluster>;

/// The entries that a cache of clusters holds, by key.
pub uninterp spec fn lru_contents(c: ClusterCache) -> Map<usize, LogCluster>;

/// The keys of a cache of clusters, least recently used first.
pub uninterp spec fn lru_recency(c: ClusterCache) -> Seq<usize>;

/// The number of entries that a cache of clusters was made to hold.
pub uninterp spec fn lru_capacity(c: ClusterCache) -> nat;

/// Recency order after key `k` is used: it moves to the most recent end.
pub open spec fn touch(order: Seq<usize>, k: usize) -> Seq<usize> {
    order.remove_value(k).push(k)
}

/// Relies on `LruCache::new`: an empty cache that holds at most `cap` entries.
#[verifier::external_body]
pub(crate) fn cache_bounded(cap: usize) -> (r: ClusterCache)
    requires
        cap > 0,
    ensures
        lru_contents(r).dom() == Set::<usize>::empty(),
        lru_recency(r) == Seq::<usize>::empty(),
        lru_capacity(r) == cap,
{
    LruCache::new(NonZeroUsize::new(cap).unwrap())
}

/// Relies on `LruCache::unbounded`: an empty cache whose capacity is
/// `usize::MAX`.
#[verifier::external_body]
pub(crate) fn cache_unbounded() -> (r: ClusterCache)
    ensures
        lru_contents(r).dom() == Set::<usize>::empty(),
        lru_recency(r) == Seq::<usize>::empty(),
        lru_capacity(r) == usize::MAX,
{
    LruCache::unbounded()
}

/// Relies on `LruCache::get`: the value under `k`, if any, which becomes the
/// most recently used entry; the cache is otherwise unchanged.
#[verifier::external_body]
pub(crate) fn cache_get(c: &mut ClusterCache, k: usize) -> (r: Option<LogCluster>)
    ensures
        lru_contents(*final(c)) == lru_contents(*old(c)),
        lru_capacity(*final(c)) == lru_capacity(*old(c)),
        lru_contents(*old(c)).contains_key(k) ==> (r matches Some(v) && v@ == lru_contents(
            *old(c),
        )[k]@) && lru_recency(*final(c)) == touch(lru_recency(*old(c)), k),
        !lru_contents(*old(c)).contains_key(k) ==> r is None
            && lru_recency(*final(c)) == lru_recency(*old(c)),
{
    c.get(&k).cloned()
}

/// Relies on `LruCache::put`: stores `v` under `k` as the most recently used
/// entry; where `k` is new and the cache is full, the least recently used
/// entry leaves first.
#[verifier::external_body]
pub(crate) fn cache_put(c: &mut ClusterCache, k: usize, v: LogCluster)
    ensures
        lru_capacity(*final(c)) == lru_capacity(*old(c)),
        lru_contents(*old(c)).contains_key(k) ==> lru_contents(*final(c)) == lru_contents(
            *old(c),
        ).insert(k, v) && lru_recency(*final(c)) == touch(lru_recency(*old(c)), k),
        !lru_contents(*old(c)).contains_key(k) && lru_recency(*old(c)).len() == lru_capacity(
            *old(c),
        ) ==> lru_contents(*final(c)) == lru_contents(*old(c)).remove(
            lru_recency(*old(c))[0],
        ).insert(k, v) && lru_recency(*final(c)) == lru_recency(*old(c)).drop_first().push(k),
        !lru_contents(*old(c)).contains_key(k) && lru_recency(*old(c)).len() != lru_capacity(
            *old(c),
        ) ==> lru_contents(*final(c)) == lru_contents(*old(c)).insert(k, v) && lru_recency(
            *final(c),
        ) == lru_recency(*old(c)).push(k),
{
    c.put(k, v);
}

/// Relies on `LruCache::contains`: whether `k` has an entry; the recency
/// order is left as it is.
#[verifier::external_body]
pub(crate) fn cache_contains(c: &ClusterCache, k: usize) -> (r: bool)
    ensures
        r == lru_contents(*c).contains_key(k),
{
    c.contains(&k)
}

/// Relies on `LruCache::iter`: the values, most recently used first.
#[verifier::external_body]
pub(crate) fn cache_values(c: &ClusterCache) -> (r: Vec<LogCluster>)
    ensures
        r@.map_values(|v: LogCluster| v@) == lru_recency(*c).reverse().map_values(
            |k: usize| lru_contents(*c)[k]@,
        ),
{
    c.iter().map(|(_, v)| v.clone()).collect()
}

/// Recency order after each of `ids` that the store holds is read, in order.
pub open spec fn touch_all(order: Seq<usize>, live: Set<usize>, ids: Seq<usize>) -> Seq<usize>
    decreases ids.len(),
{
    if ids.len() == 0 {
        order
    } else {
        let o = touch_all(order, live, ids.drop_last());
        if live.contains(ids.last()) {
            touch(o, ids.last())
        } else {
            o
        }
    }
}

/// Using a key keeps the recency order free of repeats and within `live`.
pub proof fn lemma_touch(o: Seq<usize>, live: Set<usize>, k: usize)
    requires
        o.no_duplicates(),
        live.contains(k),
        forall|i: int| 0 <= i < o.len() ==> live.contains(#[trigger] o[i]),
    ensures
        touch(o, k).no_duplicates(),
        forall|i: int| 0 <= i < touch(o, k).len() ==> live.contains(#[trigger] touch(o, k)[i]),
{
    o.index_of_first_ensures(k);
    let r = o.remove_value(k);
    match o.index_of_first(k) {
        Some(i) => {
            o.remove_ensures(i);
            assert(r == o.remove(i));
            assert forall|a: int, b: int| 0 <= a < b < r.len() implies r[a] != r[b] by {
                let a2 = if a < i { a } else { a + 1 };
                let b2 = if b < i { b } else { b + 1 };
                assert(r[a] == o[a2] && r[b] == o[b2]);
            }
            assert forall|a: int| 0 <= a < r.len() implies r[a] != k && live.contains(#[trigger] r[a]) by {
                let a2 = if a < i { a } else { a + 1 };
                assert(r[a] == o[a2]);
            }
        },
        None => {
            assert(r == o);
            assert forall|a: int| 0 <= a < r.len() implies r[a] != k by {
                assert(o.contains(r[a]) ==> r[a] != k);
            }
        },
    }
    let t = r.push(k);
    assert(t == touch(o, k));
    assert forall|a: int, b: int| 0 <= a < b < t.len() implies t[a] != t[b] by {
        if b == t.len() - 1 {
            assert(t[a] == r[a]);
        }
    }
    assert forall|a: int| 0 <= a < t.len() implies live.contains(#[trigger] t[a]) by {
        if a < r.len() {
            assert(t[a] == r[a]);
        }
    }
}

/// Reading candidates keeps the recency order free of repeats and within
/// `live`.
pub proof fn lemma_touch_all(o: Seq<usize>, live: Set<usize>, ids: Seq<usize>)
    requires
        o.no_duplicates(),
        forall|i: int| 0 <= i < o.len() ==> live.contains(#[trigger] o[i]),
    ensures
        touch_all(o, live, ids).no_duplicates(),
        forall|i: int| 0 <= i < touch_all(o, live, ids).len() ==> live.contains(
            #[trigger] touch_all(o, live, ids)[i],
        ),
    decreases ids.len(),
{
    if ids.len() > 0 {
        lemma_touch_all(o, live, ids.drop_last());
        if live.contains(ids.last()) {
            lemma_touch(touch_all(o, live, ids.drop_last()), live, ids.last());
        }
    }
}

} // verus!
