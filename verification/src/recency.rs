//! A bounded cache of path identifiers, ordered by how recently each was used.
//!
//! The cache itself is `lru::LruCache`. This module declares that type, names
//! what a cache holds, and gives each method that the library calls a
//! contract over that name. The contracts are trusted: they record what the
//! methods of `lru` do, and nothing here proves them.

use vstd::prelude::*;
use lru::LruCache;

verus! {

/// `lru::LruCache`, a hash map whose entries are also linked in the order of
/// their last use.
#[verifier::external_type_specification]
#[verifier::external_body]
#[verifier::reject_recursive_types(K)]
#[verifier::reject_recursive_types(V)]
#[verifier::reject_recursive_types(S)]
pub struct ExLruCache<K, V, S>(LruCache<K, V, S>);

/// The entries of a cache, the most recently used first.
pub uninterp spec fn lru_contents(cache: LruCache<Vec<u8>, i64>) -> Seq<(Seq<u8>, i64)>;

/// The number of entries that a cache was made to hold at most.
pub uninterp spec fn lru_capacity(cache: LruCache<Vec<u8>, i64>) -> nat;

/// Whether some entry has `key`.
pub open spec fn holds_key(entries: Seq<(Seq<u8>, i64)>, key: Seq<u8>) -> bool {
    exists|i: int| 0 <= i < entries.len() && (#[trigger] entries[i]).0 == key
}

/// Where the entry with `key` stands, for a key that some entry has.
pub open spec fn position_of(entries: Seq<(Seq<u8>, i64)>, key: Seq<u8>) -> int
    recommends
        holds_key(entries, key),
{
    choose|i: int| 0 <= i < entries.len() && (#[trigger] entries[i]).0 == key
}

/// The value stored under `key`, if some entry has the key.
pub open spec fn value_of(entries: Seq<(Seq<u8>, i64)>, key: Seq<u8>) -> Option<i64> {
    if holds_key(entries, key) {
        Some(entries[position_of(entries, key)].1)
    } else {
        None
    }
}

/// No key occurs in two entries.
pub open spec fn distinct_keys(entries: Seq<(Seq<u8>, i64)>) -> bool {
    forall|i: int, j: int|
        0 <= i < j < entries.len() ==> (#[trigger] entries[i]).0 != (#[trigger] entries[j]).0
}

/// The entries after `key` has been used: its entry, if there is one, has
/// moved to the front.
pub open spec fn touched(entries: Seq<(Seq<u8>, i64)>, key: Seq<u8>) -> Seq<(Seq<u8>, i64)> {
    if holds_key(entries, key) {
        let i = position_of(entries, key);
        seq![entries[i]] + entries.remove(i)
    } else {
        entries
    }
}

/// The entries after `value` has been stored under `key` in a cache that
/// holds at most `capacity` entries. The entry stands at the front. Where the
/// key was there before, the new entry takes the old one's place; where it was
/// not and the cache is full, the entry at the back leaves. A cache of
/// capacity zero takes nothing.
pub open spec fn inserted(
    entries: Seq<(Seq<u8>, i64)>,
    capacity: nat,
    key: Seq<u8>,
    value: i64,
) -> Seq<(Seq<u8>, i64)> {
    if holds_key(entries, key) {
        seq![(key, value)] + entries.remove(position_of(entries, key))
    } else if capacity == 0 {
        entries
    } else if entries.len() == capacity {
        seq![(key, value)] + entries.drop_last()
    } else {
        seq![(key, value)] + entries
    }
}

/// Among distinct keys, the entry with a given key is the one at its place.
pub proof fn lemma_position_of(entries: Seq<(Seq<u8>, i64)>, i: int)
    requires
        distinct_keys(entries),
        0 <= i < entries.len(),
    ensures
        holds_key(entries, entries[i].0),
        position_of(entries, entries[i].0) == i,
        value_of(entries, entries[i].0) == Some(entries[i].1),
{
    let c = position_of(entries, entries[i].0);
    if c < i {
        assert(entries[c].0 != entries[i].0);
    } else if i < c {
        assert(entries[i].0 != entries[c].0);
    }
}

/// Using a key reorders the entries and does nothing else: the same entries
/// are there, the keys stay distinct, and the key that was used is in front.
pub proof fn lemma_touched(entries: Seq<(Seq<u8>, i64)>, key: Seq<u8>)
    requires
        distinct_keys(entries),
    ensures
        distinct_keys(touched(entries, key)),
        touched(entries, key).len() == entries.len(),
        forall|k: Seq<u8>| value_of(touched(entries, key), k) == value_of(entries, k),
        holds_key(entries, key) ==> touched(entries, key)[0].0 == key,
{
    let after = touched(entries, key);
    if holds_key(entries, key) {
        let p = position_of(entries, key);
        // Where each entry of `after` stood before.
        let from = |a: int|
            if a == 0 {
                p
            } else if a <= p {
                a - 1
            } else {
                a
            };
        assert forall|a: int| 0 <= a < after.len() implies 0 <= from(a) < entries.len()
            && after[a] == entries[from(a)] by {}
        assert forall|a: int, b: int| 0 <= a < b < after.len() implies (#[trigger] after[a]).0 != (
        #[trigger] after[b]).0 by {
            let x = from(a);
            let y = from(b);
            assert(after[a] == entries[x] && after[b] == entries[y]);
            if x < y {
                assert(entries[x].0 != entries[y].0);
            } else {
                assert(entries[y].0 != entries[x].0);
            }
        }
        assert forall|k: Seq<u8>| value_of(after, k) == value_of(entries, k) by {
            if holds_key(entries, k) {
                let i = position_of(entries, k);
                let a = if i == p {
                    0
                } else if i < p {
                    i + 1
                } else {
                    i
                };
                assert(after[a] == entries[i]);
                lemma_position_of(after, a);
                lemma_position_of(entries, i);
            } else if holds_key(after, k) {
                let a = position_of(after, k);
                assert(after[a] == entries[from(a)]);
                assert(holds_key(entries, k));
            }
        }
    }
}

/// Storing a value keeps the keys distinct and the cache within its
/// capacity, puts the new entry in front, and leaves every other key with
/// the value it had, or without one.
pub proof fn lemma_inserted(
    entries: Seq<(Seq<u8>, i64)>,
    capacity: nat,
    key: Seq<u8>,
    value: i64,
)
    requires
        distinct_keys(entries),
        entries.len() <= capacity,
        0 < capacity,
    ensures
        distinct_keys(inserted(entries, capacity, key, value)),
        inserted(entries, capacity, key, value).len() <= capacity,
        inserted(entries, capacity, key, value)[0] == (key, value),
        forall|a: int|
            0 < a < inserted(entries, capacity, key, value).len() ==> entries.contains(
                #[trigger] inserted(entries, capacity, key, value)[a],
            ),
        value_of(inserted(entries, capacity, key, value), key) == Some(value),
        forall|k: Seq<u8>|
            k != key && holds_key(inserted(entries, capacity, key, value), k) ==> value_of(
                inserted(entries, capacity, key, value),
                k,
            ) == value_of(entries, k),
{
    let after = inserted(entries, capacity, key, value);
    let held = holds_key(entries, key);
    let p = position_of(entries, key);
    // Where each entry of `after` but the first stood before.
    let from = |a: int|
        if held && a > p {
            a
        } else {
            a - 1
        };
    assert forall|a: int| 1 <= a < after.len() implies 0 <= from(a) < entries.len() && after[a]
        == entries[from(a)] && after[a].0 != key by {
        let x = from(a);
        if held {
            if x < p {
                assert(entries[x].0 != entries[p].0);
            } else {
                assert(entries[p].0 != entries[x].0);
            }
        }
    }
    assert forall|a: int, b: int| 0 <= a < b < after.len() implies (#[trigger] after[a]).0 != (
    #[trigger] after[b]).0 by {
        if a > 0 {
            let x = from(a);
            let y = from(b);
            assert(after[a] == entries[x] && after[b] == entries[y]);
            assert(entries[x].0 != entries[y].0);
        }
    }
    lemma_position_of(after, 0);
    assert forall|k: Seq<u8>| k != key && holds_key(after, k) implies value_of(after, k)
        == value_of(entries, k) by {
        let a = position_of(after, k);
        let x = from(a);
        assert(after[a] == entries[x]);
        lemma_position_of(entries, x);
    }
}

/// `LruCache::new`: an empty cache that holds at most `capacity` entries.
/// The capacity is kept small enough for the map behind the cache to be
/// allocated.
#[verifier::external_body]
pub(crate) fn lru_new(capacity: usize) -> (cache: LruCache<Vec<u8>, i64>)
    requires
        capacity <= 4096,
    ensures
        lru_contents(cache) == Seq::<(Seq<u8>, i64)>::empty(),
        lru_capacity(cache) == capacity,
{
    LruCache::new(capacity)
}

/// `LruCache::contains`: whether the cache has an entry for `key`. The order
/// of the entries is not touched.
#[verifier::external_body]
pub(crate) fn lru_contains(cache: &LruCache<Vec<u8>, i64>, key: &Vec<u8>) -> (held: bool)
    ensures
        held == holds_key(lru_contents(*cache), key@),
{
    cache.contains(key)
}

/// `LruCache::get`: the value stored under `key`, if there is one; the entry
/// that was found moves to the front.
#[verifier::external_body]
pub(crate) fn lru_get(cache: &mut LruCache<Vec<u8>, i64>, key: &Vec<u8>) -> (value: Option<i64>)
    ensures
        value == value_of(lru_contents(*old(cache)), key@),
        lru_contents(*final(cache)) == touched(lru_contents(*old(cache)), key@),
        lru_capacity(*final(cache)) == lru_capacity(*old(cache)),
{
    cache.get(key).copied()
}

/// `LruCache::put`: stores `value` under `key` at the front, in place of the
/// key's old entry or, in a full cache, of the entry at the back, and returns
/// the value that the key had before.
#[verifier::external_body]
pub(crate) fn lru_put(cache: &mut LruCache<Vec<u8>, i64>, key: Vec<u8>, value: i64) -> (previous:
    Option<i64>)
    ensures
        previous == value_of(lru_contents(*old(cache)), key@),
        lru_contents(*final(cache)) == inserted(
            lru_contents(*old(cache)),
            lru_capacity(*old(cache)),
            key@,
            value,
        ),
        lru_capacity(*final(cache)) == lru_capacity(*old(cache)),
{
    cache.put(key, value)
}

} // verus!
