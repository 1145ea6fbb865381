//! The path interning cache: a small cache of recently used paths in front
//! of the path table.

use vstd::prelude::*;
use lru::LruCache;
use crate::bytes::copy_bytes;
use crate::error::ErrorKind;
use crate::path_table::{can_intern, contains_path, id_of, interned, lemma_id_of_extension,
    lemma_interned, PathRecord, PathTable};
use crate::recency::{distinct_keys, holds_key, inserted, lemma_inserted, lemma_position_of,
    lemma_touched, lru_capacity, lru_contains, lru_contents, lru_get, lru_new, lru_put,
    position_of};

verus! {

/// The number of paths that a cache remembers unless told otherwise.
pub const DEFAULT_CAPACITY: usize = 4;

/// The largest number of paths that a cache may be made to remember.
pub const MAX_CAPACITY: usize = 4096;

/// The paths that one capture run has used most recently, each with its
/// identifier. A cache belongs to one run and one path table.
pub struct PathCache {
    cache: LruCache<Vec<u8>, i64>,
}

impl View for PathCache {
    type V = Seq<(Seq<u8>, i64)>;

    /// The remembered paths with their identifiers, the most recently used
    /// first.
    closed spec fn view(&self) -> Seq<(Seq<u8>, i64)> {
        lru_contents(self.cache)
    }
}

impl PathCache {
    /// The number of paths that the cache remembers at most.
    pub closed spec fn capacity(&self) -> nat {
        lru_capacity(self.cache)
    }

    /// The cache's invariant: it remembers no path twice, and no more paths
    /// than its capacity, which is at least one.
    pub open spec fn wf(&self) -> bool {
        &&& distinct_keys(self@)
        &&& self@.len() <= self.capacity()
        &&& 0 < self.capacity() <= MAX_CAPACITY
    }

    /// Every remembered path is in the table `t`, under the remembered
    /// identifier.
    pub open spec fn agrees_with(&self, t: Seq<PathRecord>) -> bool {
        forall|i: int|
            0 <= i < self@.len() ==> contains_path(t, (#[trigger] self@[i]).0) && id_of(
                t,
                self@[i].0,
            ) == self@[i].1
    }

    /// An empty cache of the default capacity.
    pub fn new() -> (cache: PathCache)
        ensures
            cache.wf(),
            cache@.len() == 0,
            cache.capacity() == DEFAULT_CAPACITY,
    {
        PathCache { cache: lru_new(DEFAULT_CAPACITY) }
    }

    /// An empty cache that remembers at most `capacity` paths, for a
    /// capacity from one to `MAX_CAPACITY`.
    pub fn with_capacity(capacity: usize) -> (cache: Option<PathCache>)
        ensures
            cache is Some <==> 0 < capacity <= MAX_CAPACITY,
            cache matches Some(c) ==> c.wf() && c@.len() == 0 && c.capacity() == capacity,
    {
        if 0 < capacity && capacity <= MAX_CAPACITY {
            Some(PathCache { cache: lru_new(capacity) })
        } else {
            None
        }
    }

    /// Whether the cache remembers `path`. Asking does not count as a use.
    pub fn contains(&self, path: &Vec<u8>) -> (held: bool)
        ensures
            held == holds_key(self@, path@),
    {
        lru_contains(&self.cache, path)
    }

    /// The identifier of `path`.
    ///
    /// A remembered path is answered from the cache. Any other path is looked
    /// up in `table` and, where the table does not hold it yet, added there
    /// under the next identifier. Either way the path is afterwards the most
    /// recently used one in the cache; where the cache was full and the path
    /// new to it, the least recently used path has left.
    ///
    /// Fails, and changes neither the cache nor the table, where the path is
    /// new to the table and the table has no identifier left.
    pub fn get_name_id(&mut self, table: &mut PathTable, path: &Vec<u8>) -> (id: Result<
        i64,
        ErrorKind,
    >)
        requires
            old(self).wf(),
            old(table).wf(),
            old(self).agrees_with(old(table)@),
        ensures
            final(self).wf(),
            final(table).wf(),
            final(self).agrees_with(final(table)@),
            final(self).capacity() == old(self).capacity(),
            id is Ok <==> can_intern(old(table)@, path@),
            id matches Ok(i) ==> {
                &&& final(table)@ == interned(old(table)@, path@)
                &&& i == id_of(final(table)@, path@)
                &&& final(self)@ == inserted(old(self)@, old(self).capacity(), path@, i)
            },
            id matches Err(e) ==> {
                &&& e == ErrorKind::Database
                &&& final(table)@ == old(table)@
                &&& final(self)@ == old(self)@
            },
    {
        let ghost entries = self@;
        let ghost rows = table@;
        if lru_contains(&self.cache, path) {
            let id = lru_get(&mut self.cache, path).unwrap();
            proof {
                let p = position_of(entries, path@);
                lemma_position_of(entries, p);
                lemma_touched(entries, path@);
                assert(entries[p] == (path@, id));
                assert(self@ =~= inserted(entries, self.capacity(), path@, id));
                lemma_inserted(entries, self.capacity(), path@, id);
                assert forall|i: int| 0 <= i < self@.len() implies contains_path(
                    rows,
                    (#[trigger] self@[i]).0,
                ) && id_of(rows, self@[i].0) == self@[i].1 by {
                    if i > 0 {
                        assert(entries.contains(self@[i]));
                    }
                }
            }
            Ok(id)
        } else {
            match table.intern(path) {
                Ok(id) => {
                    lru_put(&mut self.cache, copy_bytes(path), id);
                    proof {
                        lemma_interned(rows, path@);
                        lemma_inserted(entries, self.capacity(), path@, id);
                        assert forall|i: int| 0 <= i < self@.len() implies contains_path(
                            table@,
                            (#[trigger] self@[i]).0,
                        ) && id_of(table@, self@[i].0) == self@[i].1 by {
                            if i > 0 {
                                assert(entries.contains(self@[i]));
                                lemma_id_of_extension(rows, table@, self@[i].0);
                            }
                        }
                    }
                    Ok(id)
                },
                Err(e) => Err(e),
            }
        }
    }
}

} // verus!
