//! The diff engine: two captures reconciled into one status per path.
//!
//! A capture speaks of a path through the first row that it holds for the
//! path's identifier. A comparison reports every path that the newer capture
//! holds, in the order of those first rows, and after them every path that
//! only the older capture holds.

use vstd::prelude::*;
use crate::bytes::copy_bytes;
use crate::error::ErrorKind;
use crate::model::{FileMetadata, SnapshotRow, Status};
use crate::path_table::{contains_id, path_of};
use crate::store::{Store, StoreView};

verus! {

/// One line of a comparison: a path and what became of it.
#[derive(Debug)]
pub struct DiffEntry {
    pub path: Vec<u8>,
    pub status: Status,
}

/// A line of a comparison as contracts see it.
pub struct DiffRecord {
    pub path: Seq<u8>,
    pub status: Status,
}

impl View for DiffEntry {
    type V = DiffRecord;

    open spec fn view(&self) -> DiffRecord {
        DiffRecord { path: self.path@, status: self.status }
    }
}

/// The lines that a vector of entries stands for.
pub open spec fn diff_records(entries: Seq<DiffEntry>) -> Seq<DiffRecord> {
    entries.map_values(|e: DiffEntry| e@)
}

/// Whether row `k` belongs to capture `event` and speaks of path `id`.
pub open spec fn is_row_of(rows: Seq<SnapshotRow>, event: i64, id: i64, k: int) -> bool {
    0 <= k < rows.len() && rows[k].capture_event == event && rows[k].path_id == id
}

/// Whether capture `event` holds path `id`.
pub open spec fn captures_path(rows: Seq<SnapshotRow>, event: i64, id: i64) -> bool {
    exists|k: int| is_row_of(rows, event, id, k)
}

/// Whether row `k` is the first row of capture `event` that speaks of path
/// `id`.
pub open spec fn is_first_row_of(rows: Seq<SnapshotRow>, event: i64, id: i64, k: int) -> bool {
    is_row_of(rows, event, id, k) && forall|j: int| 0 <= j < k ==> !is_row_of(rows, event, id, j)
}

/// What capture `event` recorded of path `id`, if it holds the path.
pub open spec fn metadata_in(rows: Seq<SnapshotRow>, event: i64, id: i64) -> Option<
    FileMetadata,
> {
    if captures_path(rows, event, id) {
        Some(rows[choose|k: int| is_first_row_of(rows, event, id, k)].metadata)
    } else {
        None
    }
}

/// The status of a path, from what the older and the newer capture recorded
/// of it. A path that neither capture holds has none.
pub open spec fn classified(older: Option<FileMetadata>, newer: Option<FileMetadata>) -> Option<
    Status,
> {
    match (older, newer) {
        (None, None) => None,
        (None, Some(_)) => Some(Status::New),
        (Some(_), None) => Some(Status::Deleted),
        (Some(a), Some(b)) => if a.modified == b.modified && a.size == b.size {
            Some(Status::Same)
        } else {
            Some(Status::Changed)
        },
    }
}

/// The status of path `id` between the captures `older` and `newer`.
pub open spec fn status_of(rows: Seq<SnapshotRow>, older: i64, newer: i64, id: i64) -> Option<
    Status,
> {
    classified(metadata_in(rows, older, id), metadata_in(rows, newer, id))
}

/// Whether row `k` is the row through which capture `event` speaks of the
/// row's path.
pub open spec fn leads(rows: Seq<SnapshotRow>, event: i64, k: int) -> bool {
    0 <= k < rows.len() && is_first_row_of(rows, event, rows[k].path_id, k)
}

/// Whether a comparison reports the path of row `k` as one that the newer
/// capture no longer holds.
pub open spec fn leads_deleted(rows: Seq<SnapshotRow>, older: i64, newer: i64, k: int) -> bool {
    leads(rows, older, k) && !captures_path(rows, newer, rows[k].path_id)
}

/// The places below `n` of the rows through which capture `newer` speaks, in
/// ascending order.
pub open spec fn newer_places(rows: Seq<SnapshotRow>, newer: i64, n: nat) -> Seq<int>
    decreases n,
{
    if n == 0 {
        Seq::empty()
    } else if leads(rows, newer, n - 1) {
        newer_places(rows, newer, (n - 1) as nat).push(n - 1)
    } else {
        newer_places(rows, newer, (n - 1) as nat)
    }
}

/// The places below `n` of the rows that stand for the paths that only the
/// capture `older` holds, in ascending order.
pub open spec fn deleted_places(rows: Seq<SnapshotRow>, older: i64, newer: i64, n: nat) -> Seq<
    int,
>
    decreases n,
{
    if n == 0 {
        Seq::empty()
    } else if leads_deleted(rows, older, newer, n - 1) {
        deleted_places(rows, older, newer, (n - 1) as nat).push(n - 1)
    } else {
        deleted_places(rows, older, newer, (n - 1) as nat)
    }
}

/// The places of the rows that a comparison reports, in the order of the
/// report: the paths of the newer capture, then the paths that are gone.
pub open spec fn diff_places(rows: Seq<SnapshotRow>, older: i64, newer: i64) -> Seq<int> {
    newer_places(rows, newer, rows.len()) + deleted_places(rows, older, newer, rows.len())
}

/// Whether a comparison reports the path of row `k`.
pub open spec fn reports(rows: Seq<SnapshotRow>, older: i64, newer: i64, k: int) -> bool {
    leads(rows, newer, k) || leads_deleted(rows, older, newer, k)
}

/// The line that a comparison reports for the path of row `k`.
pub open spec fn diff_record(s: StoreView, older: i64, newer: i64, k: int) -> DiffRecord {
    let id = s.rows[k].path_id;
    DiffRecord { path: path_of(s.paths, id), status: status_of(s.rows, older, newer, id)->Some_0 }
}

/// Whether a comparison would have to report a path that the path table
/// does not hold.
pub open spec fn dangling(s: StoreView, older: i64, newer: i64) -> bool {
    exists|k: int| #[trigger]
        reports(s.rows, older, newer, k) && !contains_id(s.paths, s.rows[k].path_id)
}

/// What a comparison of the captures `older` and `newer` yields.
pub open spec fn diff_result(s: StoreView, older: i64, newer: i64) -> Result<
    Seq<DiffRecord>,
    ErrorKind,
> {
    if dangling(s, older, newer) {
        Err(ErrorKind::DatabaseState)
    } else {
        Ok(
            diff_places(s.rows, older, newer).map_values(
                |k: int| diff_record(s, older, newer, k),
            ),
        )
    }
}

/// A capture has one first row for a path.
pub proof fn lemma_first_row(rows: Seq<SnapshotRow>, event: i64, id: i64, k: int)
    requires
        is_first_row_of(rows, event, id, k),
    ensures
        captures_path(rows, event, id),
        metadata_in(rows, event, id) == Some(rows[k].metadata),
{
    let c = choose|c: int| is_first_row_of(rows, event, id, c);
    if c < k {
        assert(!is_row_of(rows, event, id, c));
    } else if k < c {
        assert(!is_row_of(rows, event, id, k));
    }
}

/// Every place in `newer_places` is below `n` and is one of a leading row.
pub proof fn lemma_newer_places(rows: Seq<SnapshotRow>, newer: i64, n: nat)
    ensures
        forall|i: int|
            0 <= i < newer_places(rows, newer, n).len() ==> 0 <= (#[trigger] newer_places(
                rows,
                newer,
                n,
            )[i]) < n && leads(rows, newer, newer_places(rows, newer, n)[i]),
    decreases n,
{
    if n > 0 {
        lemma_newer_places(rows, newer, (n - 1) as nat);
        let before = newer_places(rows, newer, (n - 1) as nat);
        let places = newer_places(rows, newer, n);
        assert forall|i: int| 0 <= i < places.len() implies 0 <= (#[trigger] places[i]) < n
            && leads(rows, newer, places[i]) by {
            if i < before.len() {
                assert(places[i] == before[i]);
            }
        }
    }
}

/// Every place in `deleted_places` is below `n` and is one of a row that
/// stands for a path that is gone.
pub proof fn lemma_deleted_places(rows: Seq<SnapshotRow>, older: i64, newer: i64, n: nat)
    ensures
        forall|i: int|
            0 <= i < deleted_places(rows, older, newer, n).len() ==> 0 <= (
            #[trigger] deleted_places(rows, older, newer, n)[i]) < n && leads_deleted(
                rows,
                older,
                newer,
                deleted_places(rows, older, newer, n)[i],
            ),
    decreases n,
{
    if n > 0 {
        lemma_deleted_places(rows, older, newer, (n - 1) as nat);
        let before = deleted_places(rows, older, newer, (n - 1) as nat);
        let places = deleted_places(rows, older, newer, n);
        assert forall|i: int| 0 <= i < places.len() implies 0 <= (#[trigger] places[i]) < n
            && leads_deleted(rows, older, newer, places[i]) by {
            if i < before.len() {
                assert(places[i] == before[i]);
            }
        }
    }
}

/// The places in `newer_places` ascend, and every leading row below `n` has
/// its place among them.
pub proof fn lemma_newer_places_complete(rows: Seq<SnapshotRow>, newer: i64, n: nat)
    ensures
        forall|i: int, j: int|
            0 <= i < j < newer_places(rows, newer, n).len() ==> newer_places(rows, newer, n)[i]
                < newer_places(rows, newer, n)[j],
        forall|k: int|
            0 <= k < n && #[trigger] leads(rows, newer, k) ==> newer_places(
                rows,
                newer,
                n,
            ).contains(k),
    decreases n,
{
    if n > 0 {
        lemma_newer_places_complete(rows, newer, (n - 1) as nat);
        lemma_newer_places(rows, newer, (n - 1) as nat);
        let before = newer_places(rows, newer, (n - 1) as nat);
        let places = newer_places(rows, newer, n);
        assert forall|i: int, j: int| 0 <= i < j < places.len() implies places[i] < places[j] by {
            assert(places[i] == before[i]);
            if j < before.len() {
                assert(places[j] == before[j]);
            }
        }
        assert forall|k: int| 0 <= k < n && #[trigger] leads(rows, newer, k) implies places.contains(
            k,
        ) by {
            if k < n - 1 {
                let i = choose|i: int| 0 <= i < before.len() && before[i] == k;
                assert(places[i] == k);
            } else {
                assert(places[places.len() - 1] == k);
            }
        }
    }
}

/// The places in `deleted_places` ascend, and every row below `n` that
/// stands for a path that is gone has its place among them.
pub proof fn lemma_deleted_places_complete(
    rows: Seq<SnapshotRow>,
    older: i64,
    newer: i64,
    n: nat,
)
    ensures
        forall|i: int, j: int|
            0 <= i < j < deleted_places(rows, older, newer, n).len() ==> deleted_places(
                rows,
                older,
                newer,
                n,
            )[i] < deleted_places(rows, older, newer, n)[j],
        forall|k: int|
            0 <= k < n && #[trigger] leads_deleted(rows, older, newer, k) ==> deleted_places(
                rows,
                older,
                newer,
                n,
            ).contains(k),
    decreases n,
{
    if n > 0 {
        lemma_deleted_places_complete(rows, older, newer, (n - 1) as nat);
        lemma_deleted_places(rows, older, newer, (n - 1) as nat);
        let before = deleted_places(rows, older, newer, (n - 1) as nat);
        let places = deleted_places(rows, older, newer, n);
        assert forall|i: int, j: int| 0 <= i < j < places.len() implies places[i] < places[j] by {
            assert(places[i] == before[i]);
            if j < before.len() {
                assert(places[j] == before[j]);
            }
        }
        assert forall|k: int|
            0 <= k < n && #[trigger] leads_deleted(rows, older, newer, k) implies places.contains(
            k,
        ) by {
            if k < n - 1 {
                let i = choose|i: int| 0 <= i < before.len() && before[i] == k;
                assert(places[i] == k);
            } else {
                assert(places[places.len() - 1] == k);
            }
        }
    }
}

/// A capture that holds a path has a first row for it.
pub proof fn lemma_has_first_row(rows: Seq<SnapshotRow>, event: i64, id: i64, k: int)
    requires
        is_row_of(rows, event, id, k),
    ensures
        exists|f: int| 0 <= f <= k && is_first_row_of(rows, event, id, f),
    decreases k,
{
    if exists|j: int| 0 <= j < k && is_row_of(rows, event, id, j) {
        let j = choose|j: int| 0 <= j < k && is_row_of(rows, event, id, j);
        lemma_has_first_row(rows, event, id, j);
    } else {
        assert(is_first_row_of(rows, event, id, k));
    }
}

/// The status of a path from what two captures recorded of it, the older
/// first. Two records of the same time and size are the same; two that
/// differ in either are a change; a path that only the newer capture holds is
/// new, and one that only the older holds is deleted.
pub fn classify(older: Option<FileMetadata>, newer: Option<FileMetadata>) -> (status: Option<
    Status,
>)
    ensures
        status == classified(older, newer),
        match (older, newer) {
            (Some(a), Some(b)) => {
                &&& a.modified != b.modified || a.size != b.size ==> status == Some(
                    Status::Changed,
                )
                &&& a.modified == b.modified && a.size == b.size ==> status == Some(Status::Same)
            },
            _ => true,
        },
{
    match (older, newer) {
        (None, None) => None,
        (None, Some(_)) => Some(Status::New),
        (Some(_), None) => Some(Status::Deleted),
        (Some(a), Some(b)) => {
            if a.modified == b.modified && a.size == b.size {
                Some(Status::Same)
            } else {
                Some(Status::Changed)
            }
        },
    }
}

/// The place of the first row among the first `end` rows that belongs to
/// capture `event` and speaks of path `id`.
pub fn first_row(rows: &Vec<SnapshotRow>, event: i64, id: i64, end: usize) -> (place: Option<
    usize,
>)
    requires
        end <= rows@.len(),
    ensures
        place matches Some(k) ==> k < end && is_first_row_of(rows@, event, id, k as int),
        place is None ==> forall|j: int| 0 <= j < end ==> !is_row_of(rows@, event, id, j),
{
    let mut k: usize = 0;
    while k < end
        invariant
            k <= end <= rows@.len(),
            forall|j: int| 0 <= j < k ==> !is_row_of(rows@, event, id, j),
        decreases end - k,
    {
        if rows[k].capture_event == event && rows[k].path_id == id {
            return Some(k);
        }
        k += 1;
    }
    None
}

/// What capture `event` recorded of path `id`, if it holds the path.
pub fn recorded_metadata(rows: &Vec<SnapshotRow>, event: i64, id: i64) -> (metadata: Option<
    FileMetadata,
>)
    ensures
        metadata == metadata_in(rows@, event, id),
{
    match first_row(rows, event, id, rows.len()) {
        Some(k) => {
            proof {
                lemma_first_row(rows@, event, id, k as int);
            }
            Some(rows[k].metadata)
        },
        None => None,
    }
}

/// Whether row `k` is the row through which capture `event` speaks of the
/// row's path.
fn is_leading(rows: &Vec<SnapshotRow>, event: i64, k: usize) -> (leading: bool)
    requires
        k < rows@.len(),
    ensures
        leading == leads(rows@, event, k as int),
{
    if rows[k].capture_event != event {
        return false;
    }
    match first_row(rows, event, rows[k].path_id, k) {
        Some(j) => {
            assert(is_row_of(rows@, event, rows@[k as int].path_id, j as int));
            false
        },
        None => true,
    }
}

/// Compares the captures `older` and `newer`.
///
/// The result has one line for every path that either capture holds: first
/// the paths of the newer capture, each `New`, `Same` or `Changed`, then the
/// paths that only the older capture holds, each `Deleted`.
///
/// Fails where a row that would be reported carries an identifier that the
/// path table does not hold.
pub fn diff(store: &Store, older: i64, newer: i64) -> (lines: Result<Vec<DiffEntry>, ErrorKind>)
    requires
        store.wf(),
    ensures
        lines is Ok <==> !dangling(store@, older, newer),
        lines matches Ok(entries) ==> Ok::<Seq<DiffRecord>, ErrorKind>(diff_records(entries@))
            == diff_result(store@, older, newer),
        lines matches Err(e) ==> e == ErrorKind::DatabaseState,
{
    let rows = store.rows();
    let table = store.path_table();
    let ghost s = store@;
    let n = rows.len();
    let mut entries: Vec<DiffEntry> = Vec::new();
    let mut k: usize = 0;
    while k < n
        invariant
            n == rows@.len(),
            s == store@,
            rows@ == s.rows,
            table@ == s.paths,
            table.wf(),
            k <= n,
            forall|j: int| 0 <= j < k && leads(s.rows, newer, j) ==> contains_id(
                s.paths,
                (#[trigger] s.rows[j]).path_id,
            ),
            entries@.len() == newer_places(s.rows, newer, k as nat).len(),
            forall|i: int|
                0 <= i < entries@.len() ==> (#[trigger] entries@[i])@ == diff_record(
                    s,
                    older,
                    newer,
                    newer_places(s.rows, newer, k as nat)[i],
                ),
        decreases n - k,
    {
        if is_leading(rows, newer, k) {
            let row = rows[k];
            proof {
                lemma_first_row(s.rows, newer, row.path_id, k as int);
            }
            let before = recorded_metadata(rows, older, row.path_id);
            let status = classify(before, Some(row.metadata)).unwrap();
            match table.path_of(row.path_id) {
                None => {
                    assert(reports(s.rows, older, newer, k as int));
                    return Err(ErrorKind::DatabaseState);
                },
                Some(path) => {
                    entries.push(DiffEntry { path: copy_bytes(path), status });
                },
            }
        }
        k += 1;
    }
    let ghost first = newer_places(s.rows, newer, n as nat);
    let mut k: usize = 0;
    while k < n
        invariant
            n == rows@.len(),
            s == store@,
            rows@ == s.rows,
            table@ == s.paths,
            table.wf(),
            k <= n,
            first == newer_places(s.rows, newer, n as nat),
            forall|j: int| 0 <= j < n && leads(s.rows, newer, j) ==> contains_id(
                s.paths,
                (#[trigger] s.rows[j]).path_id,
            ),
            forall|j: int| 0 <= j < k && leads_deleted(s.rows, older, newer, j) ==> contains_id(
                s.paths,
                (#[trigger] s.rows[j]).path_id,
            ),
            entries@.len() == first.len() + deleted_places(s.rows, older, newer, k as nat).len(),
            forall|i: int|
                0 <= i < entries@.len() ==> (#[trigger] entries@[i])@ == diff_record(
                    s,
                    older,
                    newer,
                    (first + deleted_places(s.rows, older, newer, k as nat))[i],
                ),
        decreases n - k,
    {
        if is_leading(rows, older, k) {
            let row = rows[k];
            proof {
                lemma_first_row(s.rows, older, row.path_id, k as int);
            }
            let after = recorded_metadata(rows, newer, row.path_id);
            if after.is_none() {
                let status = classify(Some(row.metadata), after).unwrap();
                match table.path_of(row.path_id) {
                    None => {
                        assert(reports(s.rows, older, newer, k as int));
                        return Err(ErrorKind::DatabaseState);
                    },
                    Some(path) => {
                        entries.push(DiffEntry { path: copy_bytes(path), status });
                    },
                }
            }
        }
        k += 1;
    }
    proof {
        assert forall|j: int| reports(s.rows, older, newer, j) implies contains_id(
            s.paths,
            s.rows[j].path_id,
        ) by {}
        let expected = diff_places(s.rows, older, newer).map_values(
            |k: int| diff_record(s, older, newer, k),
        );
        assert(diff_records(entries@) =~= expected);
    }
    Ok(entries)
}

} // verus!
