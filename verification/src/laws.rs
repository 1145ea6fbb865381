//! What holds of the library as a whole, proved from the contracts of its
//! parts.

use vstd::prelude::*;
use crate::capture::{captured, file_rows, knows_files, lemma_captured, lemma_captured_known,
    lemma_captured_rows, lemma_file_rows_events, Observation};
use crate::index::has_event;
use crate::diff::{captures_path, deleted_places, diff_places, diff_result, is_first_row_of,
    is_row_of, leads, lemma_deleted_places, lemma_deleted_places_complete, lemma_first_row,
    lemma_has_first_row, lemma_newer_places, lemma_newer_places_complete, metadata_in,
    newer_places, reports, status_of, DiffRecord};
use crate::model::{SnapshotRow, Status};
use crate::path_table::{can_intern, contains_id, contains_path, id_of, interned,
    lemma_id_of_extension, lemma_id_of_row, lemma_interned, path_of, table_wf, PathRecord};
use crate::store::{store_wf, StoreView};

verus! {

/// Looking the same path up twice gives the same identifier: the second
/// lookup finds the row that the first one left, and adds none.
pub proof fn law_same_path_same_id(t: Seq<PathRecord>, path: Seq<u8>)
    requires
        table_wf(t),
        can_intern(t, path),
    ensures
        can_intern(interned(t, path), path),
        interned(interned(t, path), path) == interned(t, path),
        id_of(interned(interned(t, path), path), path) == id_of(interned(t, path), path),
{
    lemma_interned(t, path);
}

/// Looking another path up in between changes no identifier: whatever
/// identifier `path` has, it still has after `other` has been looked up.
pub proof fn law_lookup_keeps_ids(t: Seq<PathRecord>, path: Seq<u8>, other: Seq<u8>)
    requires
        table_wf(t),
        contains_path(t, path),
        can_intern(t, other),
    ensures
        contains_path(interned(t, other), path),
        id_of(interned(t, other), path) == id_of(t, path),
{
    lemma_interned(t, other);
    lemma_id_of_extension(t, interned(t, other), path);
}

/// A capture changes no identifier: a path that the store held before a
/// capture has the same identifier after it. So the same path resolves to
/// the same identifier in every run.
pub proof fn law_capture_keeps_ids(
    s: StoreView,
    event: i64,
    obs: Seq<Observation>,
    path: Seq<u8>,
)
    requires
        store_wf(s),
        captured(s, event, obs) is Ok,
        contains_path(s.paths, path),
    ensures
        contains_path(captured(s, event, obs)->Ok_0.paths, path),
        id_of(captured(s, event, obs)->Ok_0.paths, path) == id_of(s.paths, path),
{
    lemma_captured(s, event, obs);
    lemma_id_of_extension(s.paths, captured(s, event, obs)->Ok_0.paths, path);
}

/// Two paths never share an identifier, and every identifier is positive
/// and stands for the path it was given to.
pub proof fn law_distinct_paths_distinct_ids(t: Seq<PathRecord>, a: Seq<u8>, b: Seq<u8>)
    requires
        table_wf(t),
        contains_path(t, a),
        contains_path(t, b),
    ensures
        a != b ==> id_of(t, a) != id_of(t, b),
        0 < id_of(t, a),
        contains_id(t, id_of(t, a)),
        path_of(t, id_of(t, a)) == a,
{
    let i = choose|i: int| 0 <= i < t.len() && (#[trigger] t[i]).path == a;
    let j = choose|j: int| 0 <= j < t.len() && (#[trigger] t[j]).path == b;
    lemma_id_of_row(t, i);
    lemma_id_of_row(t, j);
    if i < j {
        assert(t[i].id < t[j].id);
    } else if j < i {
        assert(t[j].id < t[i].id);
    }
}

/// Whether one of the captures `older` and `newer` holds path `id`.
pub open spec fn holds_path(rows: Seq<SnapshotRow>, older: i64, newer: i64, id: i64) -> bool {
    captures_path(rows, older, id) || captures_path(rows, newer, id)
}

/// The line that a comparison owes the path `id`.
pub open spec fn line_of(s: StoreView, older: i64, newer: i64, id: i64) -> DiffRecord {
    DiffRecord { path: path_of(s.paths, id), status: status_of(s.rows, older, newer, id)->Some_0 }
}

/// Whether `line` is the line that a comparison owes some path that one of
/// the captures holds.
pub open spec fn is_owed(s: StoreView, older: i64, newer: i64, line: DiffRecord) -> bool {
    exists|id: i64| #[trigger]
        holds_path(s.rows, older, newer, id) && line == line_of(s, older, newer, id)
}

/// Every place that a comparison reports is the place of a row that it
/// reports, and every such row has its place.
proof fn lemma_diff_places(rows: Seq<SnapshotRow>, older: i64, newer: i64)
    ensures
        forall|i: int|
            0 <= i < diff_places(rows, older, newer).len() ==> reports(
                rows,
                older,
                newer,
                #[trigger] diff_places(rows, older, newer)[i],
            ),
        forall|k: int| #[trigger]
            reports(rows, older, newer, k) ==> diff_places(rows, older, newer).contains(k),
        forall|i: int, j: int|
            0 <= i < j < diff_places(rows, older, newer).len() ==> diff_places(
                rows,
                older,
                newer,
            )[i] != diff_places(rows, older, newer)[j],
{
    let first = newer_places(rows, newer, rows.len());
    let second = deleted_places(rows, older, newer, rows.len());
    let all = diff_places(rows, older, newer);
    lemma_newer_places(rows, newer, rows.len());
    lemma_deleted_places(rows, older, newer, rows.len());
    lemma_newer_places_complete(rows, newer, rows.len());
    lemma_deleted_places_complete(rows, older, newer, rows.len());
    assert forall|i: int| 0 <= i < all.len() implies reports(rows, older, newer, #[trigger] all[i]) by {
        if i < first.len() {
            assert(all[i] == first[i]);
        } else {
            assert(all[i] == second[i - first.len()]);
        }
    }
    assert forall|k: int| #[trigger] reports(rows, older, newer, k) implies all.contains(k) by {
        if leads(rows, newer, k) {
            let i = choose|i: int| 0 <= i < first.len() && first[i] == k;
            assert(all[i] == k);
        } else {
            let i = choose|i: int| 0 <= i < second.len() && second[i] == k;
            assert(all[first.len() + i] == k);
        }
    }
    assert forall|i: int, j: int| 0 <= i < j < all.len() implies all[i] != all[j] by {
        if j < first.len() {
            assert(all[i] == first[i] && all[j] == first[j]);
        } else if i >= first.len() {
            assert(all[i] == second[i - first.len()] && all[j] == second[j - first.len()]);
        } else {
            assert(all[i] == first[i] && all[j] == second[j - first.len()]);
            if all[i] == all[j] {
                assert(is_row_of(rows, newer, rows[all[i]].path_id, all[i]));
            }
        }
    }
}

/// A comparison has one line for every path that either capture holds, and
/// no other line: the line gives the path of the identifier and its status,
/// and no path has two lines.
pub proof fn law_one_line_per_path(s: StoreView, older: i64, newer: i64)
    requires
        store_wf(s),
        diff_result(s, older, newer) is Ok,
    ensures
        forall|id: i64| #[trigger]
            holds_path(s.rows, older, newer, id) ==> contains_id(s.paths, id) && diff_result(
                s,
                older,
                newer,
            )->Ok_0.contains(line_of(s, older, newer, id)),
        forall|i: int|
            0 <= i < diff_result(s, older, newer)->Ok_0.len() ==> is_owed(
                s,
                older,
                newer,
                #[trigger] diff_result(s, older, newer)->Ok_0[i],
            ),
        forall|i: int, j: int|
            0 <= i < j < diff_result(s, older, newer)->Ok_0.len() ==> diff_result(
                s,
                older,
                newer,
            )->Ok_0[i].path != diff_result(s, older, newer)->Ok_0[j].path,
{
    let rows = s.rows;
    let lines = diff_result(s, older, newer)->Ok_0;
    let places = diff_places(rows, older, newer);
    lemma_diff_places(rows, older, newer);
    assert forall|id: i64| #[trigger] holds_path(rows, older, newer, id) implies contains_id(
        s.paths,
        id,
    ) && lines.contains(line_of(s, older, newer, id)) by {
        let f = if captures_path(rows, newer, id) {
            let k = choose|k: int| is_row_of(rows, newer, id, k);
            lemma_has_first_row(rows, newer, id, k);
            choose|f: int| 0 <= f <= k && is_first_row_of(rows, newer, id, f)
        } else {
            let k = choose|k: int| is_row_of(rows, older, id, k);
            lemma_has_first_row(rows, older, id, k);
            choose|f: int| 0 <= f <= k && is_first_row_of(rows, older, id, f)
        };
        assert(reports(rows, older, newer, f));
        let i = choose|i: int| 0 <= i < places.len() && places[i] == f;
        assert(lines[i] == line_of(s, older, newer, id));
    }
    assert forall|i: int| 0 <= i < lines.len() implies is_owed(s, older, newer, #[trigger] lines[i]) by {
        let k = places[i];
        assert(reports(rows, older, newer, k));
        let id = rows[k].path_id;
        assert(is_row_of(rows, newer, id, k) || is_row_of(rows, older, id, k));
        assert(holds_path(rows, older, newer, id) && lines[i] == line_of(s, older, newer, id));
    }
    assert forall|i: int, j: int| 0 <= i < j < lines.len() implies lines[i].path
        != lines[j].path by {
        let a = places[i];
        let b = places[j];
        assert(reports(rows, older, newer, a) && reports(rows, older, newer, b));
        assert(a != b);
        assert(rows[a].path_id != rows[b].path_id) by {
            if rows[a].path_id == rows[b].path_id {
                let id = rows[a].path_id;
                if leads(rows, newer, a) && leads(rows, newer, b) {
                    if a < b {
                        assert(is_row_of(rows, newer, id, a));
                    } else {
                        assert(is_row_of(rows, newer, id, b));
                    }
                } else if leads(rows, newer, a) {
                    assert(is_row_of(rows, newer, id, a));
                } else if leads(rows, newer, b) {
                    assert(is_row_of(rows, newer, id, b));
                } else {
                    if a < b {
                        assert(is_row_of(rows, older, id, a));
                    } else {
                        assert(is_row_of(rows, older, id, b));
                    }
                }
            }
        }
        lemma_distinct_ids_distinct_paths(s.paths, rows[a].path_id, rows[b].path_id);
    }
}

/// Two identifiers never stand for the same path.
proof fn lemma_distinct_ids_distinct_paths(t: Seq<PathRecord>, a: i64, b: i64)
    requires
        table_wf(t),
        contains_id(t, a),
        contains_id(t, b),
        a != b,
    ensures
        path_of(t, a) != path_of(t, b),
{
    let i = choose|i: int| 0 <= i < t.len() && (#[trigger] t[i]).id == a;
    let j = choose|j: int| 0 <= j < t.len() && (#[trigger] t[j]).id == b;
    lemma_id_of_row(t, i);
    lemma_id_of_row(t, j);
    if i < j {
        assert(t[i].path != t[j].path);
    } else {
        assert(t[j].path != t[i].path);
    }
}

/// A path that only the newer capture holds is reported as new, and a path
/// that only the older capture holds as deleted: each has its one line, and
/// the line says nothing else. Taken the other way round, the two captures
/// give the path the other of the two statuses.
pub proof fn law_new_and_deleted(s: StoreView, older: i64, newer: i64, id: i64)
    requires
        store_wf(s),
        diff_result(s, older, newer) is Ok,
    ensures
        captures_path(s.rows, newer, id) && !captures_path(s.rows, older, id) ==> {
            &&& status_of(s.rows, older, newer, id) == Some(Status::New)
            &&& status_of(s.rows, newer, older, id) == Some(Status::Deleted)
            &&& diff_result(s, older, newer)->Ok_0.contains(
                DiffRecord { path: path_of(s.paths, id), status: Status::New },
            )
        },
        captures_path(s.rows, older, id) && !captures_path(s.rows, newer, id) ==> {
            &&& status_of(s.rows, older, newer, id) == Some(Status::Deleted)
            &&& status_of(s.rows, newer, older, id) == Some(Status::New)
            &&& diff_result(s, older, newer)->Ok_0.contains(
                DiffRecord { path: path_of(s.paths, id), status: Status::Deleted },
            )
        },
        forall|status: Status|
            holds_path(s.rows, older, newer, id) && diff_result(s, older, newer)->Ok_0.contains(
                DiffRecord { path: path_of(s.paths, id), status },
            ) ==> Some(status) == status_of(s.rows, older, newer, id),
{
    let lines = diff_result(s, older, newer)->Ok_0;
    law_one_line_per_path(s, older, newer);
    if holds_path(s.rows, older, newer, id) {
        let own = line_of(s, older, newer, id);
        let at = choose|i: int| 0 <= i < lines.len() && lines[i] == own;
        assert forall|status: Status|
            lines.contains(DiffRecord { path: path_of(s.paths, id), status }) implies Some(status)
            == status_of(s.rows, older, newer, id) by {
            let line = DiffRecord { path: path_of(s.paths, id), status };
            let i = choose|i: int| 0 <= i < lines.len() && lines[i] == line;
            if i < at {
                assert(lines[i].path != lines[at].path);
            } else if at < i {
                assert(lines[at].path != lines[i].path);
            }
        }
    }
}

/// Two captures that both hold a path make it changed where the time or the
/// size differs, and the same where neither does.
pub proof fn law_change_detection(s: StoreView, older: i64, newer: i64, id: i64)
    requires
        captures_path(s.rows, older, id),
        captures_path(s.rows, newer, id),
    ensures
        metadata_in(s.rows, older, id) is Some,
        metadata_in(s.rows, newer, id) is Some,
        ({
            let a = metadata_in(s.rows, older, id)->Some_0;
            let b = metadata_in(s.rows, newer, id)->Some_0;
            &&& a.modified != b.modified || a.size != b.size ==> status_of(
                s.rows,
                older,
                newer,
                id,
            ) == Some(Status::Changed)
            &&& a.modified == b.modified && a.size == b.size ==> status_of(
                s.rows,
                older,
                newer,
                id,
            ) == Some(Status::Same)
        }),
{
}

/// The rows of files whose paths a table holds carry identifiers that the
/// table holds.
proof fn lemma_file_rows_ids(paths: Seq<PathRecord>, event: i64, obs: Seq<Observation>)
    requires
        table_wf(paths),
        knows_files(paths, obs),
    ensures
        forall|j: int|
            0 <= j < file_rows(paths, event, obs).len() ==> contains_id(
                paths,
                (#[trigger] file_rows(paths, event, obs)[j]).path_id,
            ),
    decreases obs.len(),
{
    if obs.len() > 0 {
        let head = obs.drop_last();
        assert forall|i: int| 0 <= i < head.len() implies match #[trigger] head[i] {
            Observation::File { path, .. } => contains_path(paths, path@),
            _ => true,
        } by {
            assert(head[i] == obs[i]);
        }
        lemma_file_rows_ids(paths, event, head);
        let rest = file_rows(paths, event, head);
        let all = file_rows(paths, event, obs);
        if let Observation::File { path, .. } = obs.last() {
            assert(obs[obs.len() - 1] == obs.last());
            law_distinct_paths_distinct_ids(paths, path@, path@);
        }
        assert forall|j: int| 0 <= j < all.len() implies contains_id(
            paths,
            (#[trigger] all[j]).path_id,
        ) by {
            if j < rest.len() {
                assert(all[j] == rest[j]);
            }
        }
    }
}

/// Rows that end in two runs of equal length, the second a copy of the first
/// under another timestamp, with no row of either timestamp before them:
/// the two captures hold the same paths, and every path is the same in both.
proof fn lemma_twin_captures(rows: Seq<SnapshotRow>, a: int, b: int, first: i64, second: i64)
    requires
        0 <= a,
        0 <= b,
        rows.len() == a + 2 * b,
        forall|k: int|
            0 <= k < a ==> (#[trigger] rows[k]).capture_event != first && rows[k].capture_event
                != second,
        forall|k: int|
            a <= k < a + b ==> {
                &&& (#[trigger] rows[k]).capture_event == first
                &&& rows[k + b].capture_event == second
                &&& rows[k].path_id == rows[k + b].path_id
                &&& rows[k].metadata == rows[k + b].metadata
            },
    ensures
        forall|id: i64|
            captures_path(rows, first, id) <==> #[trigger] captures_path(rows, second, id),
        forall|id: i64| #[trigger]
            holds_path(rows, first, second, id) ==> status_of(rows, first, second, id) == Some(
                Status::Same,
            ),
{
    if first != second {
        assert forall|id: i64| #[trigger] captures_path(rows, second, id) implies captures_path(
            rows,
            first,
            id,
        ) && metadata_in(rows, first, id) == metadata_in(rows, second, id) by {
            let k = choose|k: int| is_row_of(rows, second, id, k);
            lemma_has_first_row(rows, second, id, k);
            let f = choose|f: int| 0 <= f <= k && is_first_row_of(rows, second, id, f);
            assert(f >= a + b) by {
                if f < a {
                    assert(rows[f].capture_event != second);
                } else if f < a + b {
                    assert(rows[f].capture_event == first);
                }
            }
            let g = f - b;
            assert(rows[g].capture_event == first);
            assert(is_row_of(rows, first, id, g));
            assert forall|j: int| 0 <= j < g implies !is_row_of(rows, first, id, j) by {
                if is_row_of(rows, first, id, j) {
                    if j < a {
                        assert(rows[j].capture_event != first);
                    } else {
                        assert(rows[j].capture_event == first);
                        assert(is_row_of(rows, second, id, j + b));
                    }
                }
            }
            lemma_first_row(rows, second, id, f);
            lemma_first_row(rows, first, id, g);
        }
        assert forall|id: i64| captures_path(rows, first, id) implies #[trigger] captures_path(
            rows,
            second,
            id,
        ) by {
            let k = choose|k: int| is_row_of(rows, first, id, k);
            assert(a <= k < a + b) by {
                if k < a {
                    assert(rows[k].capture_event != first);
                } else if k >= a + b {
                    assert(rows[k - b].capture_event == first);
                }
            }
            assert(rows[k].capture_event == first);
            assert(is_row_of(rows, second, id, k + b));
        }
    }
}

/// Capturing the same observations twice, under timestamps that are new to
/// the store, gives two captures between which every path is the same: the
/// second capture goes through where the first did, the comparison of the
/// two succeeds, and every line of it says `Same`.
pub proof fn law_unchanged_directory_is_same(
    s: StoreView,
    first: i64,
    second: i64,
    obs: Seq<Observation>,
)
    requires
        store_wf(s),
        !has_event(s.rows, first),
        !has_event(s.rows, second),
        captured(s, first, obs) is Ok,
    ensures
        captured(captured(s, first, obs)->Ok_0, second, obs) is Ok,
        diff_result(captured(captured(s, first, obs)->Ok_0, second, obs)->Ok_0, first, second)
            is Ok,
        ({
            let twice = captured(captured(s, first, obs)->Ok_0, second, obs)->Ok_0;
            let lines = diff_result(twice, first, second)->Ok_0;
            &&& forall|i: int| 0 <= i < lines.len() ==> (#[trigger] lines[i]).status == Status::Same
            &&& forall|id: i64| #[trigger]
                holds_path(twice.rows, first, second, id) ==> status_of(
                    twice.rows,
                    first,
                    second,
                    id,
                ) == Some(Status::Same)
        }),
{
    let once = captured(s, first, obs)->Ok_0;
    lemma_captured(s, first, obs);
    lemma_captured_rows(s, first, obs);
    lemma_captured_known(once, second, obs);
    let twice = captured(once, second, obs)->Ok_0;
    let run1 = file_rows(once.paths, first, obs);
    let run2 = file_rows(once.paths, second, obs);
    lemma_file_rows_events(once.paths, first, second, obs);
    lemma_file_rows_ids(once.paths, first, obs);
    lemma_file_rows_ids(once.paths, second, obs);
    let rows = twice.rows;
    let a = s.rows.len() as int;
    let b = run1.len() as int;
    assert(rows =~= s.rows + run1 + run2);
    assert forall|k: int| 0 <= k < a implies (#[trigger] rows[k]).capture_event != first
        && rows[k].capture_event != second by {
        assert(rows[k] == s.rows[k]);
    }
    assert forall|k: int| a <= k < a + b implies {
        &&& (#[trigger] rows[k]).capture_event == first
        &&& rows[k + b].capture_event == second
        &&& rows[k].path_id == rows[k + b].path_id
        &&& rows[k].metadata == rows[k + b].metadata
    } by {
        assert(rows[k] == run1[k - a]);
        assert(rows[k + b] == run2[k - a]);
    }
    lemma_twin_captures(rows, a, b, first, second);
    assert(store_wf(twice)) by {
        lemma_captured(once, second, obs);
    }
    assert forall|k: int| #[trigger] reports(rows, first, second, k) implies contains_id(
        twice.paths,
        rows[k].path_id,
    ) by {
        if k < a {
            assert(rows[k].capture_event != first && rows[k].capture_event != second);
        } else if k < a + b {
            assert(rows[k] == run1[k - a]);
        } else {
            assert(rows[k] == run2[k - a - b]);
        }
    }
    let lines = diff_result(twice, first, second)->Ok_0;
    law_one_line_per_path(twice, first, second);
    assert forall|i: int| 0 <= i < lines.len() implies (#[trigger] lines[i]).status
        == Status::Same by {
        assert(is_owed(twice, first, second, lines[i]));
    }
}

} // verus!
