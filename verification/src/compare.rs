//! The comparison of the two latest captures.

use vstd::prelude::*;
use crate::diff::{diff, diff_records, diff_result, DiffEntry, DiffRecord};
use crate::error::ErrorKind;
use crate::index::{find_dates, latest_two};
use crate::store::{Store, StoreView};

verus! {

/// A comparison: the two captures that were compared, and a line for every
/// path that either of them holds.
#[derive(Debug)]
pub struct Comparison {
    pub older: i64,
    pub newer: i64,
    pub entries: Vec<DiffEntry>,
}

/// What comparing the two latest captures of a store yields: the older of
/// the two, the newer, and the lines.
pub open spec fn compare_result(s: StoreView) -> Result<(i64, i64, Seq<DiffRecord>), ErrorKind> {
    match latest_two(s.rows) {
        Err(e) => Err(e),
        Ok((older, newer)) => match diff_result(s, older, newer) {
            Err(e) => Err(e),
            Ok(lines) => Ok((older, newer, lines)),
        },
    }
}

/// Compares the two latest captures in the store.
///
/// Fails with `NotEnoughHistory` where the store holds fewer than two
/// captures, and with `DatabaseState` where a row that would be reported
/// carries an identifier that the path table does not hold.
pub fn run_compare(store: &Store) -> (comparison: Result<Comparison, ErrorKind>)
    requires
        store.wf(),
    ensures
        comparison matches Ok(c) ==> compare_result(store@) == Ok::<
            (i64, i64, Seq<DiffRecord>),
            ErrorKind,
        >((c.older, c.newer, diff_records(c.entries@))),
        comparison matches Err(e) ==> compare_result(store@) == Err::<
            (i64, i64, Seq<DiffRecord>),
            ErrorKind,
        >(e),
{
    match find_dates(store) {
        Err(e) => Err(e),
        Ok((older, newer)) => match diff(store, older, newer) {
            Err(e) => Err(e),
            Ok(entries) => Ok(Comparison { older, newer, entries }),
        },
    }
}

} // verus!
