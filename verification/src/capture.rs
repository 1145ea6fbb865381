//! The capture writer: one traversal, written to the store as one whole.

use vstd::prelude::*;
use crate::clock::seconds_since_epoch;
use crate::error::ErrorKind;
use crate::index::has_event;
use crate::model::{FileMetadata, SnapshotRow};
use crate::numeric::{fits, to_signed};
use crate::path_cache::PathCache;
use crate::path_table::{can_intern, contains_path, id_of, lemma_id_of_extension, lemma_interned,
    table_wf, PathRecord};
use crate::store::{store_wf, with_row, Store, StoreView};

verus! {

/// What a directory traversal has to say of one entry.
#[derive(Debug)]
pub enum Observation {
    /// The traversal met an error where an entry should have been.
    WalkError,
    /// The entry is a directory, a link or a special file.
    NotRegularFile,
    /// The entry is a regular file, and its metadata could not be read.
    MetadataError,
    /// A regular file: its path, the seconds since the epoch at which it was
    /// last modified, and its size in bytes.
    File { path: Vec<u8>, modified: u64, size: u64 },
}

/// What a capture that went through has done.
#[derive(Debug)]
pub struct CaptureReport {
    /// The timestamp that every row of the capture carries.
    pub capture_event: i64,
    /// The number of rows that the capture wrote.
    pub recorded: usize,
    /// The places, in the traversal, of the entries that were left out
    /// because of an error. They are owed a warning each.
    pub skipped: Vec<usize>,
}

/// Whether an observation is left out of the capture with a warning.
pub open spec fn is_reported(o: Observation) -> bool {
    o is WalkError || o is MetadataError
}

/// The places of the observations that are left out with a warning, in
/// ascending order.
pub open spec fn reported(obs: Seq<Observation>) -> Seq<usize>
    decreases obs.len(),
{
    if obs.len() == 0 {
        Seq::empty()
    } else if is_reported(obs.last()) {
        reported(obs.drop_last()).push((obs.len() - 1) as usize)
    } else {
        reported(obs.drop_last())
    }
}

/// The store after one observation has been handled under `event`.
///
/// A regular file whose time and size fit is recorded. One whose time or size
/// does not fit ends the capture, and so does a new path for which the path
/// table has no identifier left. Every other observation leaves the store as
/// it is.
pub open spec fn observed(s: StoreView, event: i64, o: Observation) -> Result<
    StoreView,
    ErrorKind,
> {
    match o {
        Observation::File { path, modified, size } => {
            if !fits(modified) || !fits(size) {
                Err(ErrorKind::NumericOverflow)
            } else if !can_intern(s.paths, path@) {
                Err(ErrorKind::Database)
            } else {
                Ok(
                    with_row(
                        s,
                        event,
                        path@,
                        FileMetadata { modified: modified as i64, size: size as i64 },
                    ),
                )
            }
        },
        _ => Ok(s),
    }
}

/// The store after the observations have been handled in turn under
/// `event`, or the error of the first one that ends the capture.
pub open spec fn captured(s: StoreView, event: i64, obs: Seq<Observation>) -> Result<
    StoreView,
    ErrorKind,
>
    decreases obs.len(),
{
    if obs.len() == 0 {
        Ok(s)
    } else {
        match captured(s, event, obs.drop_last()) {
            Ok(t) => observed(t, event, obs.last()),
            Err(e) => Err(e),
        }
    }
}

/// The store after a capture that began at `now` seconds since the epoch, or
/// the error that ended it.
pub open spec fn capture_result(s: StoreView, now: u64, obs: Seq<Observation>) -> Result<
    StoreView,
    ErrorKind,
> {
    if fits(now) {
        captured(s, now as i64, obs)
    } else {
        Err(ErrorKind::NumericOverflow)
    }
}

/// An observation that is handled without an error leaves a well-formed
/// store well formed, keeps what the store held, and adds at most one row,
/// which carries `event`.
pub proof fn lemma_observed(s: StoreView, event: i64, o: Observation)
    requires
        store_wf(s),
        observed(s, event, o) is Ok,
    ensures
        ({
            let t = observed(s, event, o)->Ok_0;
            &&& store_wf(t)
            &&& s.paths.len() <= t.paths.len()
            &&& t.paths.take(s.paths.len() as int) == s.paths
            &&& s.rows.len() <= t.rows.len() <= s.rows.len() + 1
            &&& t.rows.take(s.rows.len() as int) == s.rows
            &&& forall|k: int|
                s.rows.len() <= k < t.rows.len() ==> (#[trigger] t.rows[k]).capture_event == event
        }),
{
    let t = observed(s, event, o)->Ok_0;
    match o {
        Observation::File { path, modified, size } => {
            lemma_interned(s.paths, path@);
            assert(t.rows.take(s.rows.len() as int) =~= s.rows);
        },
        _ => {
            assert(t.paths.take(s.paths.len() as int) =~= s.paths);
            assert(t.rows.take(s.rows.len() as int) =~= s.rows);
        },
    }
}

/// A capture that goes through leaves a well-formed store well formed and
/// keeps what the store held: both tables begin as they were. Every row that
/// it adds carries `event`.
pub proof fn lemma_captured(s: StoreView, event: i64, obs: Seq<Observation>)
    requires
        store_wf(s),
        captured(s, event, obs) is Ok,
    ensures
        ({
            let t = captured(s, event, obs)->Ok_0;
            &&& store_wf(t)
            &&& s.paths.len() <= t.paths.len()
            &&& t.paths.take(s.paths.len() as int) == s.paths
            &&& s.rows.len() <= t.rows.len() <= s.rows.len() + obs.len()
            &&& t.rows.take(s.rows.len() as int) == s.rows
            &&& forall|k: int|
                s.rows.len() <= k < t.rows.len() ==> (#[trigger] t.rows[k]).capture_event == event
        }),
    decreases obs.len(),
{
    let t = captured(s, event, obs)->Ok_0;
    if obs.len() == 0 {
        assert(t.paths.take(s.paths.len() as int) =~= s.paths);
        assert(t.rows.take(s.rows.len() as int) =~= s.rows);
    } else {
        let m = captured(s, event, obs.drop_last())->Ok_0;
        lemma_captured(s, event, obs.drop_last());
        lemma_observed(m, event, obs.last());
        assert(t.paths.take(s.paths.len() as int) =~= m.paths.take(s.paths.len() as int)) by {
            assert(t.paths.take(m.paths.len() as int) == m.paths);
        }
        assert(t.rows.take(s.rows.len() as int) =~= m.rows.take(s.rows.len() as int)) by {
            assert(t.rows.take(m.rows.len() as int) == m.rows);
        }
        assert forall|k: int| s.rows.len() <= k < t.rows.len() implies (#[trigger] t.rows[k]).capture_event
            == event by {
            if k < m.rows.len() {
                assert(t.rows.take(m.rows.len() as int)[k] == t.rows[k]);
            }
        }
    }
}

/// The rows that stand for the regular files among the observations, in the
/// order of the traversal, each under the identifier that its path has in
/// `paths`.
pub open spec fn file_rows(paths: Seq<PathRecord>, event: i64, obs: Seq<Observation>) -> Seq<
    SnapshotRow,
>
    decreases obs.len(),
{
    if obs.len() == 0 {
        Seq::empty()
    } else {
        let rest = file_rows(paths, event, obs.drop_last());
        match obs.last() {
            Observation::File { path, modified, size } => rest.push(
                SnapshotRow {
                    path_id: id_of(paths, path@),
                    metadata: FileMetadata { modified: modified as i64, size: size as i64 },
                    capture_event: event,
                },
            ),
            _ => rest,
        }
    }
}

/// Whether `paths` holds the path of every regular file among the
/// observations.
pub open spec fn knows_files(paths: Seq<PathRecord>, obs: Seq<Observation>) -> bool {
    forall|i: int|
        0 <= i < obs.len() ==> match #[trigger] obs[i] {
            Observation::File { path, .. } => contains_path(paths, path@),
            _ => true,
        }
}

/// Whether the time and the size of every regular file among the
/// observations fit the store's integers.
pub open spec fn files_fit(obs: Seq<Observation>) -> bool {
    forall|i: int|
        0 <= i < obs.len() ==> match #[trigger] obs[i] {
            Observation::File { modified, size, .. } => fits(modified) && fits(size),
            _ => true,
        }
}

/// The rows of the regular files are the same under every well-formed table
/// that begins with a table that holds their paths.
pub proof fn lemma_file_rows_extension(
    t: Seq<PathRecord>,
    u: Seq<PathRecord>,
    event: i64,
    obs: Seq<Observation>,
)
    requires
        table_wf(u),
        t.len() <= u.len(),
        u.take(t.len() as int) == t,
        knows_files(t, obs),
    ensures
        knows_files(u, obs),
        file_rows(u, event, obs) == file_rows(t, event, obs),
    decreases obs.len(),
{
    assert forall|i: int| 0 <= i < obs.len() implies match #[trigger] obs[i] {
        Observation::File { path, .. } => contains_path(u, path@),
        _ => true,
    } by {
        if let Observation::File { path, .. } = obs[i] {
            lemma_id_of_extension(t, u, path@);
        }
    }
    if obs.len() > 0 {
        let head = obs.drop_last();
        assert forall|i: int| 0 <= i < head.len() implies match #[trigger] head[i] {
            Observation::File { path, .. } => contains_path(t, path@),
            _ => true,
        } by {
            assert(head[i] == obs[i]);
        }
        lemma_file_rows_extension(t, u, event, head);
        if let Observation::File { path, .. } = obs.last() {
            assert(obs[obs.len() - 1] == obs.last());
            lemma_id_of_extension(t, u, path@);
        }
    }
}

/// What a capture that goes through has written: after the rows that the
/// store held stand the rows of the regular files among the observations,
/// in the order of the traversal, each under the identifier of its path.
pub proof fn lemma_captured_rows(s: StoreView, event: i64, obs: Seq<Observation>)
    requires
        store_wf(s),
        captured(s, event, obs) is Ok,
    ensures
        ({
            let t = captured(s, event, obs)->Ok_0;
            &&& t.rows == s.rows + file_rows(t.paths, event, obs)
            &&& knows_files(t.paths, obs)
            &&& files_fit(obs)
        }),
    decreases obs.len(),
{
    let t = captured(s, event, obs)->Ok_0;
    if obs.len() == 0 {
        assert(t.rows =~= s.rows + file_rows(t.paths, event, obs));
    } else {
        let head = obs.drop_last();
        let m = captured(s, event, head)->Ok_0;
        lemma_captured_rows(s, event, head);
        lemma_captured(s, event, head);
        lemma_observed(m, event, obs.last());
        lemma_file_rows_extension(m.paths, t.paths, event, head);
        if let Observation::File { path, .. } = obs.last() {
            lemma_interned(m.paths, path@);
        }
        assert(t.rows =~= s.rows + file_rows(t.paths, event, obs));
        assert forall|i: int| 0 <= i < obs.len() implies match #[trigger] obs[i] {
            Observation::File { path, .. } => contains_path(t.paths, path@),
            _ => true,
        } by {
            if i < head.len() {
                assert(head[i] == obs[i]);
            }
        }
        assert forall|i: int| 0 <= i < obs.len() implies match #[trigger] obs[i] {
            Observation::File { modified, size, .. } => fits(modified) && fits(size),
            _ => true,
        } by {
            if i < head.len() {
                assert(head[i] == obs[i]);
            }
        }
    }
}

/// A capture of files whose paths the store holds, and whose times and sizes
/// fit, goes through and adds no path.
pub proof fn lemma_captured_known(s: StoreView, event: i64, obs: Seq<Observation>)
    requires
        store_wf(s),
        knows_files(s.paths, obs),
        files_fit(obs),
    ensures
        captured(s, event, obs) == Ok::<StoreView, ErrorKind>(
            StoreView { paths: s.paths, rows: s.rows + file_rows(s.paths, event, obs) },
        ),
    decreases obs.len(),
{
    if obs.len() == 0 {
        assert(s.rows + file_rows(s.paths, event, obs) =~= s.rows);
    } else {
        let head = obs.drop_last();
        assert forall|i: int| 0 <= i < head.len() implies match #[trigger] head[i] {
            Observation::File { path, .. } => contains_path(s.paths, path@),
            _ => true,
        } by {
            assert(head[i] == obs[i]);
        }
        assert forall|i: int| 0 <= i < head.len() implies match #[trigger] head[i] {
            Observation::File { modified, size, .. } => fits(modified) && fits(size),
            _ => true,
        } by {
            assert(head[i] == obs[i]);
        }
        lemma_captured_known(s, event, head);
        let m = StoreView { paths: s.paths, rows: s.rows + file_rows(s.paths, event, head) };
        assert(obs[obs.len() - 1] == obs.last());
        let t = observed(m, event, obs.last())->Ok_0;
        assert(t.rows =~= s.rows + file_rows(s.paths, event, obs));
    }
}

/// The rows of the same observations under two timestamps differ in the
/// timestamp alone.
pub proof fn lemma_file_rows_events(
    paths: Seq<PathRecord>,
    first: i64,
    second: i64,
    obs: Seq<Observation>,
)
    ensures
        file_rows(paths, first, obs).len() == file_rows(paths, second, obs).len(),
        file_rows(paths, first, obs).len() <= obs.len(),
        forall|j: int|
            0 <= j < file_rows(paths, first, obs).len() ==> {
                &&& (#[trigger] file_rows(paths, first, obs)[j]).path_id == file_rows(
                    paths,
                    second,
                    obs,
                )[j].path_id
                &&& file_rows(paths, first, obs)[j].metadata == file_rows(
                    paths,
                    second,
                    obs,
                )[j].metadata
                &&& file_rows(paths, first, obs)[j].capture_event == first
                &&& file_rows(paths, second, obs)[j].capture_event == second
            },
    decreases obs.len(),
{
    if obs.len() > 0 {
        lemma_file_rows_events(paths, first, second, obs.drop_last());
    }
}

/// A capture ends on a value that does not fit or on a full path table, and
/// on nothing else.
pub proof fn lemma_captured_failures(s: StoreView, event: i64, obs: Seq<Observation>)
    ensures
        captured(s, event, obs) matches Err(e) ==> e == ErrorKind::NumericOverflow || e
            == ErrorKind::Database,
    decreases obs.len(),
{
    if obs.len() > 0 {
        lemma_captured_failures(s, event, obs.drop_last());
    }
}

/// The error on which a capture of the observations ends, if it ends on one.
/// The timestamp has no part in it: it is told here by the capture at zero.
pub open spec fn capture_failure(s: StoreView, obs: Seq<Observation>) -> Option<ErrorKind> {
    match captured(s, 0, obs) {
        Ok(_) => None,
        Err(e) => Some(e),
    }
}

/// Whether a capture goes through, on which error it ends if it does not,
/// and what it leaves in the path table do not depend on its timestamp.
pub proof fn lemma_captured_any_event(
    s: StoreView,
    first: i64,
    second: i64,
    obs: Seq<Observation>,
)
    ensures
        match (captured(s, first, obs), captured(s, second, obs)) {
            (Ok(t), Ok(u)) => t.paths == u.paths,
            (Err(e), Err(f)) => e == f,
            _ => false,
        },
    decreases obs.len(),
{
    if obs.len() > 0 {
        lemma_captured_any_event(s, first, second, obs.drop_last());
    }
}

/// Once an observation has ended a capture, what follows it changes nothing.
pub proof fn lemma_captured_error(s: StoreView, event: i64, obs: Seq<Observation>, n: int)
    requires
        0 <= n <= obs.len(),
        captured(s, event, obs.take(n)) is Err,
    ensures
        captured(s, event, obs) == captured(s, event, obs.take(n)),
    decreases obs.len() - n,
{
    if n == obs.len() {
        assert(obs.take(n) =~= obs);
    } else {
        assert(obs.take(n + 1).drop_last() =~= obs.take(n));
        lemma_captured_error(s, event, obs, n + 1);
    }
}

/// Writes one traversal to the store as the capture of the moment `now`,
/// given in seconds since the epoch.
///
/// Every regular file among the observations is recorded under the one
/// capture timestamp, in the order of the traversal, each path under its
/// identifier. Entries that are no regular files are passed over. Entries
/// that the traversal or the reading of metadata failed on are passed over
/// too, and their places are returned.
///
/// A timestamp, a modification time or a size beyond `i64::MAX` ends the
/// capture, and so does a new path that the path table has no identifier
/// for. The store is then exactly what it was before the call: where it held
/// no row of this capture before, it holds none after.
pub fn capture_at(store: &mut Store, now: u64, observations: &Vec<Observation>) -> (report:
    Result<CaptureReport, ErrorKind>)
    requires
        old(store).wf(),
    ensures
        final(store).wf(),
        report is Ok <==> capture_result(old(store)@, now, observations@) is Ok,
        report matches Ok(r) ==> {
            &&& capture_result(old(store)@, now, observations@) == Ok::<StoreView, ErrorKind>(
                final(store)@,
            )
            &&& r.capture_event == now
            &&& r.recorded == final(store)@.rows.len() - old(store)@.rows.len()
            &&& r.skipped@ == reported(observations@)
        },
        report matches Err(e) ==> {
            &&& capture_result(old(store)@, now, observations@) == Err::<StoreView, ErrorKind>(e)
            &&& final(store)@ == old(store)@
        },
        report is Err && !has_event(old(store)@.rows, now as i64) ==> !has_event(
            final(store)@.rows,
            now as i64,
        ),
{
    let ghost before = store@;
    let ghost obs = observations@;
    let event = match to_signed(now) {
        Ok(event) => event,
        Err(e) => {
            return Err(e);
        },
    };
    let paths_mark = store.path_table().len();
    let rows_mark = store.rows().len();
    let mut cache = PathCache::new();
    let mut skipped: Vec<usize> = Vec::new();
    let mut recorded: usize = 0;
    let n = observations.len();
    let mut i: usize = 0;
    while i < n
        invariant
            n == observations.len(),
            obs == observations@,
            i <= n,
            before == old(store)@,
            fits(now),
            event == now,
            store_wf(before),
            paths_mark == before.paths.len(),
            rows_mark == before.rows.len(),
            store.wf(),
            cache.wf(),
            cache.agrees_with(store@.paths),
            captured(before, event, obs.take(i as int)) == Ok::<StoreView, ErrorKind>(store@),
            skipped@ == reported(obs.take(i as int)),
            recorded == store@.rows.len() - rows_mark,
        decreases n - i,
    {
        let ghost current = store@;
        proof {
            assert(obs.take(i + 1).drop_last() =~= obs.take(i as int));
            lemma_captured(before, event, obs.take(i as int));
        }
        let mut failure: Option<ErrorKind> = None;
        match &observations[i] {
            Observation::WalkError => {
                skipped.push(i);
            },
            Observation::MetadataError => {
                skipped.push(i);
            },
            Observation::NotRegularFile => {},
            Observation::File { path, modified, size } => {
                match to_signed(*modified) {
                    Err(e) => {
                        failure = Some(e);
                    },
                    Ok(modified) => match to_signed(*size) {
                        Err(e) => {
                            failure = Some(e);
                        },
                        Ok(size) => {
                            let metadata = FileMetadata { modified, size };
                            match store.record(&mut cache, event, path, metadata) {
                                Err(e) => {
                                    failure = Some(e);
                                },
                                Ok(_) => {
                                    recorded = recorded + 1;
                                },
                            }
                        },
                    },
                }
            },
        }
        if let Some(e) = failure {
            proof {
                assert(observed(current, event, obs[i as int]) == Err::<StoreView, ErrorKind>(e));
                lemma_captured_error(before, event, obs, i + 1);
                assert(store@ == current);
            }
            store.rollback(paths_mark, rows_mark);
            assert(store@ == before);
            return Err(e);
        }
        i += 1;
    }
    assert(obs.take(n as int) =~= obs);
    Ok(CaptureReport { capture_event: event, recorded, skipped })
}

/// Writes one traversal to the store as the capture of the present moment.
///
/// The clock is read once, before the first observation is handled, and the
/// capture is then the one that `capture_at` makes of that reading. A clock
/// that stands before the epoch, or so far after it that the seconds do not
/// fit, ends the capture as a time that does not fit does.
///
/// Whatever the clock says: a capture that fails leaves the store exactly as
/// it was, and one that goes through has written what its report's
/// timestamp stands for. Observations that end a capture end this one; a
/// capture that fails has failed on them or on the clock.
pub fn run_capture(store: &mut Store, observations: &Vec<Observation>) -> (report: Result<
    CaptureReport,
    ErrorKind,
>)
    requires
        old(store).wf(),
    ensures
        final(store).wf(),
        report matches Ok(r) ==> {
            &&& 0 <= r.capture_event
            &&& captured(old(store)@, r.capture_event, observations@) == Ok::<
                StoreView,
                ErrorKind,
            >(final(store)@)
            &&& r.recorded == final(store)@.rows.len() - old(store)@.rows.len()
            &&& r.skipped@ == reported(observations@)
        },
        report matches Err(e) ==> {
            &&& e == ErrorKind::NumericOverflow || capture_failure(old(store)@, observations@)
                == Some(e)
            &&& e == ErrorKind::NumericOverflow || e == ErrorKind::Database
            &&& final(store)@ == old(store)@
        },
        capture_failure(old(store)@, observations@) is Some ==> report is Err,
{
    match seconds_since_epoch() {
        Some(now) => {
            proof {
                lemma_captured_failures(store@, now as i64, observations@);
                lemma_captured_any_event(store@, 0, now as i64, observations@);
            }
            capture_at(store, now, observations)
        },
        None => Err(ErrorKind::NumericOverflow),
    }
}

} // verus!
