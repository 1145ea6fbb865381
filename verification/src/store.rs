//! The store: the path table and the snapshot rows of every capture.
//!
//! A store only grows. A capture adds rows at the end of both tables, and
//! either all of its rows stay or none does.

use vstd::prelude::*;
use crate::error::ErrorKind;
use crate::model::{FileMetadata, SnapshotRow};
use crate::path_cache::PathCache;
use crate::path_table::{can_intern, id_of, interned, records, table_wf, PathEntry, PathRecord,
    PathTable};
use crate::recency::inserted;

verus! {

/// A store as contracts see it.
pub struct StoreView {
    /// The path table, in the order of the identifiers.
    pub paths: Seq<PathRecord>,
    /// The snapshot rows, in the order in which they were written.
    pub rows: Seq<SnapshotRow>,
}

/// Every row records a time and a size that are not negative.
pub open spec fn rows_valid(rows: Seq<SnapshotRow>) -> bool {
    forall|i: int| 0 <= i < rows.len() ==> (#[trigger] rows[i]).metadata.valid()
}

/// A store is well formed when its path table is and its rows are valid.
pub open spec fn store_wf(s: StoreView) -> bool {
    table_wf(s.paths) && rows_valid(s.rows)
}

/// The store after one file has been recorded under `event`: the path has
/// been looked up in the path table, and a row with its identifier stands at
/// the end of the snapshot rows.
pub open spec fn with_row(s: StoreView, event: i64, path: Seq<u8>, metadata: FileMetadata)
    -> StoreView {
    let paths = interned(s.paths, path);
    StoreView {
        paths,
        rows: s.rows.push(
            SnapshotRow { path_id: id_of(paths, path), metadata, capture_event: event },
        ),
    }
}

/// The store.
pub struct Store {
    paths: PathTable,
    rows: Vec<SnapshotRow>,
}

impl View for Store {
    type V = StoreView;

    closed spec fn view(&self) -> StoreView {
        StoreView { paths: self.paths@, rows: self.rows@ }
    }
}

impl Store {
    /// The store's invariant.
    pub open spec fn wf(&self) -> bool {
        store_wf(self@)
    }

    /// A store that holds nothing.
    pub fn new() -> (store: Store)
        ensures
            store.wf(),
            store@.paths.len() == 0,
            store@.rows.len() == 0,
    {
        Store { paths: PathTable::new(), rows: Vec::new() }
    }

    /// Makes a store of the two tables as they were read from where they are
    /// kept, the path table in the order of its identifiers. Tables that
    /// break the store's invariant are refused.
    pub fn load(paths: Vec<PathEntry>, rows: Vec<SnapshotRow>) -> (loaded: Result<
        Store,
        ErrorKind,
    >)
        ensures
            loaded is Ok <==> table_wf(records(paths@)) && rows_valid(rows@),
            loaded matches Ok(store) ==> store.wf() && store@.paths == records(paths@)
                && store@.rows == rows@,
            loaded matches Err(e) ==> e == ErrorKind::DatabaseState,
    {
        let n = rows.len();
        let mut i: usize = 0;
        while i < n
            invariant
                n == rows.len(),
                i <= n,
                forall|k: int| 0 <= k < i ==> (#[trigger] rows@[k]).metadata.valid(),
            decreases n - i,
        {
            if rows[i].metadata.modified < 0 || rows[i].metadata.size < 0 {
                assert(!rows@[i as int].metadata.valid());
                return Err(ErrorKind::DatabaseState);
            }
            i += 1;
        }
        match PathTable::load(paths) {
            Ok(table) => Ok(Store { paths: table, rows }),
            Err(e) => Err(e),
        }
    }

    /// The path table.
    pub fn path_table(&self) -> (table: &PathTable)
        ensures
            table@ == self@.paths,
    {
        &self.paths
    }

    /// The snapshot rows, in the order in which they were written.
    pub fn rows(&self) -> (rows: &Vec<SnapshotRow>)
        ensures
            rows@ == self@.rows,
    {
        &self.rows
    }

    /// Records one file under `event`: looks its path up through `cache` and
    /// writes a row with the identifier. Fails, and changes nothing, where
    /// the path is new and the path table has no identifier left.
    pub(crate) fn record(
        &mut self,
        cache: &mut PathCache,
        event: i64,
        path: &Vec<u8>,
        metadata: FileMetadata,
    ) -> (id: Result<i64, ErrorKind>)
        requires
            old(self).wf(),
            old(cache).wf(),
            old(cache).agrees_with(old(self)@.paths),
            metadata.valid(),
        ensures
            final(self).wf(),
            final(cache).wf(),
            final(cache).agrees_with(final(self)@.paths),
            final(cache).capacity() == old(cache).capacity(),
            id is Ok <==> can_intern(old(self)@.paths, path@),
            id matches Ok(i) ==> {
                &&& final(self)@ == with_row(old(self)@, event, path@, metadata)
                &&& i == id_of(final(self)@.paths, path@)
                &&& final(cache)@ == inserted(old(cache)@, old(cache).capacity(), path@, i)
            },
            id matches Err(e) ==> {
                &&& e == ErrorKind::Database
                &&& final(self)@ == old(self)@
                &&& final(cache)@ == old(cache)@
            },
    {
        match cache.get_name_id(&mut self.paths, path) {
            Ok(id) => {
                self.rows.push(SnapshotRow { path_id: id, metadata, capture_event: event });
                Ok(id)
            },
            Err(e) => Err(e),
        }
    }

    /// Takes the store back to `paths_len` paths and `rows_len` rows: what it
    /// held when it had those lengths.
    pub(crate) fn rollback(&mut self, paths_len: usize, rows_len: usize)
        requires
            old(self).wf(),
            paths_len <= old(self)@.paths.len(),
            rows_len <= old(self)@.rows.len(),
        ensures
            final(self).wf(),
            final(self)@.paths == old(self)@.paths.take(paths_len as int),
            final(self)@.rows == old(self)@.rows.take(rows_len as int),
    {
        self.paths.truncate(paths_len);
        self.rows.truncate(rows_len);
    }
}

} // verus!
