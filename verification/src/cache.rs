//! The bounded least-recently-used cache of region blobs.

use lru::LruCache;
use std::num::NonZeroUsize;
use vstd::prelude::*;

verus! {

/// The cache type of the `lru` crate, taken as opaque.
#[verifier::external_type_specification]
#[verifier::external_body]
#[verifier::reject_recursive_types(K)]
#[verifier::reject_recursive_types(V)]
#[verifier::reject_recursive_types(S)]
pub struct ExLruCache<K, V, S>(LruCache<K, V, S>);

/// The hasher that the cache uses by default, taken as opaque.
#[verifier::external_type_specification]
#[verifier::external_body]
pub struct ExDefaultHasher(lru::DefaultHasher);

/// What a region cache holds: each region with its blob, most recently
/// used first.
pub uninterp spec fn cache_entries(cache: LruCache<(i32, i32), Vec<u8>>) -> Seq<
    ((i32, i32), Seq<u8>),
>;

/// The number of entries that a region cache was made to hold at most.
pub uninterp spec fn cache_limit(cache: LruCache<(i32, i32), Vec<u8>>) -> nat;

/// Whether `entries` holds an entry for `key`.
pub open spec fn holds(entries: Seq<((i32, i32), Seq<u8>)>, key: (i32, i32)) -> bool {
    exists|i: int| 0 <= i < entries.len() && entries[i].0 == key
}

/// The position of an entry for `key` in `entries`.
pub open spec fn position(entries: Seq<((i32, i32), Seq<u8>)>, key: (i32, i32)) -> int {
    choose|i: int| 0 <= i < entries.len() && entries[i].0 == key
}

/// Whether no region has two entries.
pub open spec fn distinct_keys(entries: Seq<((i32, i32), Seq<u8>)>) -> bool {
    forall|i: int, j: int| 0 <= i < j < entries.len() ==> entries[i].0 != entries[j].0
}

/// The entries after a lookup of `key`: a hit moves the entry to the front.
pub open spec fn after_get(entries: Seq<((i32, i32), Seq<u8>)>, key: (i32, i32)) -> Seq<
    ((i32, i32), Seq<u8>),
> {
    if holds(entries, key) {
        seq![entries[position(entries, key)]] + entries.remove(position(entries, key))
    } else {
        entries
    }
}

/// The entries after `key` is put with `value`: the entry goes to the
/// front, replacing an earlier entry for the key; a new key in a full cache
/// displaces the least recently used entry.
pub open spec fn after_put(
    entries: Seq<((i32, i32), Seq<u8>)>,
    limit: nat,
    key: (i32, i32),
    value: Seq<u8>,
) -> Seq<((i32, i32), Seq<u8>)> {
    if holds(entries, key) {
        seq![(key, value)] + entries.remove(position(entries, key))
    } else if entries.len() == limit {
        seq![(key, value)] + entries.drop_last()
    } else {
        seq![(key, value)] + entries
    }
}

/// Makes an empty cache for at most `limit` regions.
///
/// Trusted: stands for `LruCache::new`, which builds a cache without
/// entries that holds at most the given number of them.
#[verifier::external_body]
pub(crate) fn cache_new(limit: usize) -> (cache: LruCache<(i32, i32), Vec<u8>>)
    requires
        limit > 0,
    ensures
        cache_entries(cache) == Seq::<((i32, i32), Seq<u8>)>::empty(),
        cache_limit(cache) == limit,
{
    LruCache::new(NonZeroUsize::new(limit).unwrap())
}

/// Looks a region up and hands out a copy of its blob.
///
/// Trusted: stands for `LruCache::get`, which returns the value stored for
/// the key, if there is one, and moves that entry to the front of the
/// recency order; a miss changes nothing.
#[verifier::external_body]
pub(crate) fn cache_get(cache: &mut LruCache<(i32, i32), Vec<u8>>, key: (i32, i32)) -> (blob:
    Option<Vec<u8>>)
    requires
        distinct_keys(cache_entries(*old(cache))),
    ensures
        cache_entries(*final(cache)) == after_get(cache_entries(*old(cache)), key),
        cache_limit(*final(cache)) == cache_limit(*old(cache)),
        match blob {
            Some(b) => holds(cache_entries(*old(cache)), key) && b@ == cache_entries(
                *old(cache),
            )[position(cache_entries(*old(cache)), key)].1,
            None => !holds(cache_entries(*old(cache)), key),
        },
{
    cache.get(&key).cloned()
}

/// Stores a blob for a region.
///
/// Trusted: stands for `LruCache::put`, which stores the value under the
/// key at the front of the recency order, replacing the key's earlier
/// value, and, when the key is new and the cache is full, drops the least
/// recently used entry.
#[verifier::external_body]
pub(crate) fn cache_put(cache: &mut LruCache<(i32, i32), Vec<u8>>, key: (i32, i32), blob: Vec<u8>)
    requires
        distinct_keys(cache_entries(*old(cache))),
        cache_entries(*old(cache)).len() <= cache_limit(*old(cache)),
    ensures
        cache_entries(*final(cache)) == after_put(
            cache_entries(*old(cache)),
            cache_limit(*old(cache)),
            key,
            blob@,
        ),
        cache_limit(*final(cache)) == cache_limit(*old(cache)),
{
    cache.put(key, blob);
}

/// A lookup keeps the entries distinct and as many as they were.
pub proof fn lemma_after_get_distinct(entries: Seq<((i32, i32), Seq<u8>)>, key: (i32, i32))
    requires
        distinct_keys(entries),
    ensures
        distinct_keys(after_get(entries, key)),
        after_get(entries, key).len() == entries.len(),
{
    if holds(entries, key) {
        let p = position(entries, key);
        let rest = entries.remove(p);
        let after = after_get(entries, key);
        assert forall|i: int, j: int| 0 <= i < j < after.len() implies after[i].0 != after[j].0 by {
            let jj = if j - 1 < p {
                j - 1
            } else {
                j
            };
            assert(after[j] == rest[j - 1]);
            assert(rest[j - 1] == entries[jj]);
            if i == 0 {
                assert(after[0] == entries[p]);
            } else {
                let ii = if i - 1 < p {
                    i - 1
                } else {
                    i
                };
                assert(after[i] == rest[i - 1]);
                assert(rest[i - 1] == entries[ii]);
            }
        }
    }
}

/// A put keeps the entries distinct and within the limit.
pub proof fn lemma_after_put_distinct(
    entries: Seq<((i32, i32), Seq<u8>)>,
    limit: nat,
    key: (i32, i32),
    value: Seq<u8>,
)
    requires
        distinct_keys(entries),
        entries.len() <= limit,
        limit > 0,
    ensures
        distinct_keys(after_put(entries, limit, key, value)),
        after_put(entries, limit, key, value).len() <= limit,
{
    let after = after_put(entries, limit, key, value);
    if holds(entries, key) {
        let p = position(entries, key);
        let rest = entries.remove(p);
        assert forall|i: int, j: int| 0 <= i < j < after.len() implies after[i].0 != after[j].0 by {
            let jj = if j - 1 < p {
                j - 1
            } else {
                j
            };
            assert(after[j] == rest[j - 1]);
            assert(rest[j - 1] == entries[jj]);
            if i == 0 {
                assert(after[0].0 == entries[p].0);
            } else {
                let ii = if i - 1 < p {
                    i - 1
                } else {
                    i
                };
                assert(after[i] == rest[i - 1]);
                assert(rest[i - 1] == entries[ii]);
            }
        }
    } else {
        let rest = if entries.len() == limit {
            entries.drop_last()
        } else {
            entries
        };
        assert forall|i: int, j: int| 0 <= i < j < after.len() implies after[i].0 != after[j].0 by {
            assert(after[j] == rest[j - 1]);
            assert(rest[j - 1] == entries[j - 1]);
            if i == 0 {
                assert(after[0].0 == key);
            } else {
                assert(after[i] == rest[i - 1]);
                assert(rest[i - 1] == entries[i - 1]);
            }
        }
    }
}

/// What was put for a region is what a lookup of the region finds.
pub proof fn lemma_put_then_get(
    entries: Seq<((i32, i32), Seq<u8>)>,
    limit: nat,
    key: (i32, i32),
    value: Seq<u8>,
)
    requires
        distinct_keys(entries),
        entries.len() <= limit,
        limit > 0,
    ensures
        holds(after_put(entries, limit, key, value), key),
        after_put(entries, limit, key, value)[position(
            after_put(entries, limit, key, value),
            key,
        )].1 == value,
{
    let after = after_put(entries, limit, key, value);
    lemma_after_put_distinct(entries, limit, key, value);
    assert(after[0] == (key, value));
    let p = position(after, key);
    if p != 0 {
        assert(after[0].0 != after[p].0);
    }
}

} // verus!
