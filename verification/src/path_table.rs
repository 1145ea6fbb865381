//! The path table: the lasting mapping from paths to identifiers.
//!
//! Every path that a capture has ever recorded owns one row of the table. A
//! row is never changed or removed, and a new path is given an identifier
//! above every identifier in use, so an identifier names one path for good.

use vstd::prelude::*;
use crate::bytes::{copy_bytes, same_bytes};
use crate::error::ErrorKind;

verus! {

/// A row of the path table: an identifier and the path it stands for.
#[derive(Debug)]
pub struct PathEntry {
    pub id: i64,
    pub path: Vec<u8>,
}

/// A row of the path table as contracts see it.
pub struct PathRecord {
    pub id: i64,
    pub path: Seq<u8>,
}

impl View for PathEntry {
    type V = PathRecord;

    open spec fn view(&self) -> PathRecord {
        PathRecord { id: self.id, path: self.path@ }
    }
}

/// The rows that a vector of entries stands for.
pub open spec fn records(entries: Seq<PathEntry>) -> Seq<PathRecord> {
    entries.map_values(|e: PathEntry| e@)
}

/// Whether some row of `t` holds `path`.
pub open spec fn contains_path(t: Seq<PathRecord>, path: Seq<u8>) -> bool {
    exists|i: int| 0 <= i < t.len() && (#[trigger] t[i]).path == path
}

/// Whether some row of `t` holds `id`.
pub open spec fn contains_id(t: Seq<PathRecord>, id: i64) -> bool {
    exists|i: int| 0 <= i < t.len() && (#[trigger] t[i]).id == id
}

/// The identifier of `path`, for a path that `t` holds.
pub open spec fn id_of(t: Seq<PathRecord>, path: Seq<u8>) -> i64
    recommends
        contains_path(t, path),
{
    t[choose|i: int| 0 <= i < t.len() && (#[trigger] t[i]).path == path].id
}

/// The path that `id` stands for, for an identifier that `t` holds.
pub open spec fn path_of(t: Seq<PathRecord>, id: i64) -> Seq<u8>
    recommends
        contains_id(t, id),
{
    t[choose|i: int| 0 <= i < t.len() && (#[trigger] t[i]).id == id].path
}

/// The identifier of `path`, if `t` holds the path.
pub open spec fn lookup_id(t: Seq<PathRecord>, path: Seq<u8>) -> Option<i64> {
    if contains_path(t, path) {
        Some(id_of(t, path))
    } else {
        None
    }
}

/// The path that `id` stands for, if `t` holds the identifier.
pub open spec fn lookup_path(t: Seq<PathRecord>, id: i64) -> Option<Seq<u8>> {
    if contains_id(t, id) {
        Some(path_of(t, id))
    } else {
        None
    }
}

/// A table is well formed when its identifiers are positive and strictly
/// increasing from row to row, and no path occurs in two rows.
pub open spec fn table_wf(t: Seq<PathRecord>) -> bool {
    &&& forall|i: int| 0 <= i < t.len() ==> 0 < (#[trigger] t[i]).id
    &&& forall|i: int, j: int| 0 <= i < j < t.len() ==> (#[trigger] t[i]).id < (#[trigger] t[j]).id
    &&& forall|i: int, j: int|
        0 <= i < j < t.len() ==> (#[trigger] t[i]).path != (#[trigger] t[j]).path
}

/// The identifier that the next new path is given: one above the last row's.
pub open spec fn next_id(t: Seq<PathRecord>) -> int {
    if t.len() == 0 {
        1
    } else {
        t.last().id + 1
    }
}

/// Whether `t` has an identifier left for a path that it does not hold yet.
pub open spec fn has_room(t: Seq<PathRecord>) -> bool {
    next_id(t) <= i64::MAX
}

/// The table after `path` has been looked up in it: unchanged where the path
/// is known, and one row longer where it is not.
pub open spec fn interned(t: Seq<PathRecord>, path: Seq<u8>) -> Seq<PathRecord> {
    if contains_path(t, path) {
        t
    } else {
        t.push(PathRecord { id: next_id(t) as i64, path })
    }
}

/// Whether looking `path` up in `t` yields an identifier: the path is known,
/// or there is an identifier left to give it.
pub open spec fn can_intern(t: Seq<PathRecord>, path: Seq<u8>) -> bool {
    contains_path(t, path) || has_room(t)
}

/// In a well-formed table the identifier of a row's path is that row's.
pub proof fn lemma_id_of_row(t: Seq<PathRecord>, i: int)
    requires
        table_wf(t),
        0 <= i < t.len(),
    ensures
        contains_path(t, t[i].path),
        id_of(t, t[i].path) == t[i].id,
        contains_id(t, t[i].id),
        path_of(t, t[i].id) == t[i].path,
{
    let c = choose|c: int| 0 <= c < t.len() && (#[trigger] t[c]).path == t[i].path;
    assert(c == i) by {
        if c < i {
            assert(t[c].path != t[i].path);
        } else if i < c {
            assert(t[i].path != t[c].path);
        }
    }
    let d = choose|d: int| 0 <= d < t.len() && (#[trigger] t[d]).id == t[i].id;
    assert(d == i) by {
        if d < i {
            assert(t[d].id < t[i].id);
        } else if i < d {
            assert(t[i].id < t[d].id);
        }
    }
}

/// Every identifier in a well-formed table lies below the next one.
pub proof fn lemma_ids_below_next(t: Seq<PathRecord>, i: int)
    requires
        table_wf(t),
        0 <= i < t.len(),
    ensures
        0 < t[i].id < next_id(t),
{
    if i < t.len() - 1 {
        assert(t[i].id < t[t.len() - 1].id);
    }
}

/// Looking a path up keeps a well-formed table well formed, keeps every row
/// in its place, and leaves the table holding the path.
pub proof fn lemma_interned(t: Seq<PathRecord>, path: Seq<u8>)
    requires
        table_wf(t),
        can_intern(t, path),
    ensures
        table_wf(interned(t, path)),
        contains_path(interned(t, path), path),
        t.len() <= interned(t, path).len() <= t.len() + 1,
        interned(t, path).take(t.len() as int) == t,
        !contains_path(t, path) ==> id_of(interned(t, path), path) == next_id(t),
        contains_path(t, path) ==> id_of(interned(t, path), path) == id_of(t, path),
{
    let u = interned(t, path);
    if contains_path(t, path) {
        assert(u.take(t.len() as int) =~= t);
    } else {
        let n = t.len() as int;
        assert(u.take(n) =~= t);
        assert forall|i: int| 0 <= i < u.len() implies 0 < (#[trigger] u[i]).id by {
            if i < n {
                assert(u[i] == t[i]);
            }
        }
        assert forall|i: int, j: int| 0 <= i < j < u.len() implies (#[trigger] u[i]).id < (
        #[trigger] u[j]).id by {
            assert(u[i] == t[i]);
            if j < n {
                assert(u[j] == t[j]);
            } else {
                lemma_ids_below_next(t, i);
            }
        }
        assert forall|i: int, j: int| 0 <= i < j < u.len() implies (#[trigger] u[i]).path != (
        #[trigger] u[j]).path by {
            assert(u[i] == t[i]);
            if j < n {
                assert(u[j] == t[j]);
            }
        }
        assert(u[n].path == path);
        lemma_id_of_row(u, n);
    }
}

/// An identifier, once given, stays: a path that `t` holds has the same
/// identifier in every well-formed table that begins with the rows of `t`.
pub proof fn lemma_id_of_extension(t: Seq<PathRecord>, u: Seq<PathRecord>, path: Seq<u8>)
    requires
        table_wf(u),
        t.len() <= u.len(),
        u.take(t.len() as int) == t,
        contains_path(t, path),
    ensures
        table_wf(t),
        contains_path(u, path),
        id_of(u, path) == id_of(t, path),
{
    assert forall|i: int| 0 <= i < t.len() implies #[trigger] t[i] == u[i] by {
        assert(u.take(t.len() as int)[i] == u[i]);
    }
    let c = choose|c: int| 0 <= c < t.len() && (#[trigger] t[c]).path == path;
    assert(u[c].path == path);
    lemma_id_of_row(u, c);
}

/// The path table.
pub struct PathTable {
    entries: Vec<PathEntry>,
}

impl View for PathTable {
    type V = Seq<PathRecord>;

    closed spec fn view(&self) -> Seq<PathRecord> {
        records(self.entries@)
    }
}

impl PathTable {
    /// The table's invariant.
    pub open spec fn wf(&self) -> bool {
        table_wf(self@)
    }

    /// A table without rows.
    pub fn new() -> (table: PathTable)
        ensures
            table@ == Seq::<PathRecord>::empty(),
            table.wf(),
    {
        let table = PathTable { entries: Vec::new() };
        assert(table@ =~= Seq::<PathRecord>::empty());
        table
    }

    /// Makes a table of rows read from a store, in the order of their
    /// identifiers. Rows that break the table's invariant are refused.
    pub fn load(entries: Vec<PathEntry>) -> (loaded: Result<PathTable, ErrorKind>)
        ensures
            loaded is Ok <==> table_wf(records(entries@)),
            loaded matches Ok(table) ==> table@ == records(entries@) && table.wf(),
            loaded matches Err(e) ==> e == ErrorKind::DatabaseState,
    {
        let ghost t = records(entries@);
        let n = entries.len();
        let mut i: usize = 0;
        while i < n
            invariant
                n == entries.len(),
                t == records(entries@),
                i <= n,
                table_wf(t.take(i as int)),
            decreases n - i,
        {
            let ghost before = t.take(i as int);
            let ghost after = t.take(i + 1);
            if entries[i].id <= 0 {
                assert(!(0 < t[i as int].id));
                return Err(ErrorKind::DatabaseState);
            }
            if i > 0 && entries[i - 1].id >= entries[i].id {
                assert(!(t[i - 1].id < t[i as int].id));
                return Err(ErrorKind::DatabaseState);
            }
            let mut j: usize = 0;
            while j < i
                invariant
                    n == entries.len(),
                    t == records(entries@),
                    j <= i < n,
                    forall|k: int| 0 <= k < j ==> (#[trigger] t[k]).path != t[i as int].path,
                decreases i - j,
            {
                if same_bytes(&entries[j].path, &entries[i].path) {
                    assert(!(t[j as int].path != t[i as int].path));
                    return Err(ErrorKind::DatabaseState);
                }
                j += 1;
            }
            proof {
                assert forall|a: int| 0 <= a < after.len() implies 0 < (#[trigger] after[a]).id by {
                    if a < i {
                        assert(after[a] == before[a]);
                    }
                }
                assert forall|a: int, b: int| 0 <= a < b < after.len() implies (
                #[trigger] after[a]).id < (#[trigger] after[b]).id by {
                    assert(after[a] == before[a]);
                    if b < i {
                        assert(after[b] == before[b]);
                    } else if a < i - 1 {
                        assert(before[a].id < before[i - 1].id);
                    }
                }
                assert forall|a: int, b: int| 0 <= a < b < after.len() implies (
                #[trigger] after[a]).path != (#[trigger] after[b]).path by {
                    assert(after[a] == before[a]);
                    if b < i {
                        assert(after[b] == before[b]);
                    } else {
                        assert(t[a].path != t[i as int].path);
                    }
                }
            }
            i += 1;
        }
        assert(t.take(n as int) =~= t);
        Ok(PathTable { entries })
    }

    /// The number of rows.
    pub fn len(&self) -> (n: usize)
        ensures
            n == self@.len(),
    {
        self.entries.len()
    }

    /// The row at `index`, in the order of the identifiers.
    pub fn entry(&self, index: usize) -> (e: &PathEntry)
        requires
            index < self@.len(),
        ensures
            e@ == self@[index as int],
    {
        &self.entries[index]
    }

    /// The identifier of `path`, if the table holds the path.
    pub fn find(&self, path: &Vec<u8>) -> (found: Option<i64>)
        requires
            self.wf(),
        ensures
            found == lookup_id(self@, path@),
    {
        let n = self.entries.len();
        let mut i: usize = 0;
        while i < n
            invariant
                n == self.entries.len(),
                i <= n,
                self.wf(),
                forall|k: int| 0 <= k < i ==> (#[trigger] self@[k]).path != path@,
            decreases n - i,
        {
            if same_bytes(&self.entries[i].path, path) {
                proof {
                    lemma_id_of_row(self@, i as int);
                }
                return Some(self.entries[i].id);
            }
            i += 1;
        }
        None
    }

    /// The path that `id` stands for, if the table holds the identifier.
    /// The rows are in the order of their identifiers, so the search halves
    /// the rows that are left at every step.
    pub fn path_of(&self, id: i64) -> (found: Option<&Vec<u8>>)
        requires
            self.wf(),
        ensures
            match found {
                Some(path) => lookup_path(self@, id) == Some(path@),
                None => lookup_path(self@, id) is None,
            },
    {
        let mut lo: usize = 0;
        let mut hi: usize = self.entries.len();
        while lo < hi
            invariant
                lo <= hi <= self.entries.len(),
                self.wf(),
                forall|k: int| 0 <= k < lo ==> (#[trigger] self@[k]).id < id,
                forall|k: int| hi <= k < self@.len() ==> id < (#[trigger] self@[k]).id,
            decreases hi - lo,
        {
            let mid = lo + (hi - lo) / 2;
            let at = self.entries[mid].id;
            if at == id {
                proof {
                    lemma_id_of_row(self@, mid as int);
                }
                return Some(&self.entries[mid].path);
            } else if at < id {
                assert forall|k: int| 0 <= k < mid + 1 implies (#[trigger] self@[k]).id < id by {
                    if k < mid {
                        assert(self@[k].id < self@[mid as int].id);
                    }
                }
                lo = mid + 1;
            } else {
                assert forall|k: int| mid <= k < self@.len() implies id < (#[trigger] self@[k]).id by {
                    if mid < k {
                        assert(self@[mid as int].id < self@[k].id);
                    }
                }
                hi = mid;
            }
        }
        None
    }

    /// Looks `path` up and, where the table does not hold it yet, adds a row
    /// for it under the next identifier. Fails, and changes nothing, where
    /// the path is new and every identifier is taken.
    pub fn intern(&mut self, path: &Vec<u8>) -> (id: Result<i64, ErrorKind>)
        requires
            old(self).wf(),
        ensures
            final(self).wf(),
            id is Ok <==> can_intern(old(self)@, path@),
            id matches Ok(i) ==> final(self)@ == interned(old(self)@, path@) && i == id_of(
                final(self)@,
                path@,
            ),
            id matches Err(e) ==> e == ErrorKind::Database && final(self)@ == old(self)@,
    {
        proof {
            if can_intern(self@, path@) {
                lemma_interned(self@, path@);
            }
        }
        match self.find(path) {
            Some(id) => Ok(id),
            None => {
                let n = self.entries.len();
                let next: i64 = if n == 0 {
                    1
                } else {
                    let last = self.entries[n - 1].id;
                    if last == i64::MAX {
                        return Err(ErrorKind::Database);
                    }
                    last + 1
                };
                let entry = PathEntry { id: next, path: copy_bytes(path) };
                self.entries.push(entry);
                assert(self@ =~= interned(old(self)@, path@));
                Ok(next)
            },
        }
    }

    /// Drops every row from `len` on: the way back to an earlier state of a
    /// table that has only grown since. It is for undoing additions that were
    /// never made to last, and for nothing else.
    pub(crate) fn truncate(&mut self, len: usize)
        requires
            old(self).wf(),
            len <= old(self)@.len(),
        ensures
            final(self).wf(),
            final(self)@ == old(self)@.take(len as int),
    {
        self.entries.truncate(len);
        assert(self@ =~= old(self)@.take(len as int));
    }
}

} // verus!
