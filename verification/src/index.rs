//! The capture index: which captures a store holds, the latest first.

use vstd::prelude::*;
use crate::error::ErrorKind;
use crate::model::SnapshotRow;
use crate::store::Store;

verus! {

/// Whether some row belongs to capture `event`.
pub open spec fn has_event(rows: Seq<SnapshotRow>, event: i64) -> bool {
    exists|k: int| 0 <= k < rows.len() && (#[trigger] rows[k]).capture_event == event
}

/// Whether `event` lies before `bound`. Without a bound every event does.
pub open spec fn below(bound: Option<i64>, event: i64) -> bool {
    match bound {
        Some(b) => event < b,
        None => true,
    }
}

/// Whether `event` is the latest capture before `bound`.
pub open spec fn is_latest_below(rows: Seq<SnapshotRow>, bound: Option<i64>, event: i64) -> bool {
    &&& has_event(rows, event)
    &&& below(bound, event)
    &&& forall|k: int|
        0 <= k < rows.len() && below(bound, (#[trigger] rows[k]).capture_event)
            ==> rows[k].capture_event <= event
}

/// The latest capture before `bound`, if there is a capture before it.
pub open spec fn latest_below(rows: Seq<SnapshotRow>, bound: Option<i64>) -> Option<i64> {
    if exists|e: i64| is_latest_below(rows, bound, e) {
        Some(choose|e: i64| is_latest_below(rows, bound, e))
    } else {
        None
    }
}

/// Whether the rows belong to two captures at least.
pub open spec fn has_history(rows: Seq<SnapshotRow>) -> bool {
    exists|i: int, j: int|
        0 <= i < rows.len() && 0 <= j < rows.len() && (#[trigger] rows[i]).capture_event != (
        #[trigger] rows[j]).capture_event
}

/// The two latest captures, the older first.
pub open spec fn latest_two(rows: Seq<SnapshotRow>) -> Result<(i64, i64), ErrorKind> {
    match latest_below(rows, None) {
        None => Err(ErrorKind::NotEnoughHistory),
        Some(newer) => match latest_below(rows, Some(newer)) {
            None => Err(ErrorKind::NotEnoughHistory),
            Some(older) => Ok((older, newer)),
        },
    }
}

/// There is one latest capture before a bound, or none.
pub proof fn lemma_latest_below(rows: Seq<SnapshotRow>, bound: Option<i64>, event: i64)
    requires
        is_latest_below(rows, bound, event),
    ensures
        latest_below(rows, bound) == Some(event),
{
    let c = choose|e: i64| is_latest_below(rows, bound, e);
    let k = choose|k: int| 0 <= k < rows.len() && (#[trigger] rows[k]).capture_event == event;
    let j = choose|j: int| 0 <= j < rows.len() && (#[trigger] rows[j]).capture_event == c;
    assert(rows[k].capture_event <= c);
    assert(rows[j].capture_event <= event);
}

/// The latest capture before `bound`, if there is a capture before it.
pub fn latest_before(rows: &Vec<SnapshotRow>, bound: Option<i64>) -> (latest: Option<i64>)
    ensures
        latest == latest_below(rows@, bound),
        latest matches Some(e) ==> is_latest_below(rows@, bound, e),
        latest is None ==> forall|k: int|
            0 <= k < rows@.len() ==> !below(bound, (#[trigger] rows@[k]).capture_event),
{
    let n = rows.len();
    let mut latest: Option<i64> = None;
    let mut k: usize = 0;
    while k < n
        invariant
            n == rows@.len(),
            k <= n,
            latest matches Some(e) ==> is_latest_below(rows@.take(k as int), bound, e),
            latest is None ==> forall|j: int|
                0 <= j < k ==> !below(bound, (#[trigger] rows@[j]).capture_event),
        decreases n - k,
    {
        let event = rows[k].capture_event;
        let ghost head = rows@.take(k as int);
        let ghost all = rows@.take(k + 1);
        let within = match bound {
            Some(b) => event < b,
            None => true,
        };
        let better = within && match latest {
            Some(e) => e < event,
            None => true,
        };
        proof {
            assert(all[k as int].capture_event == event);
            assert forall|j: int| 0 <= j < k implies #[trigger] all[j] == head[j] by {}
            if let Some(e) = latest {
                let at = choose|a: int|
                    0 <= a < head.len() && (#[trigger] head[a]).capture_event == e;
                assert(all[at].capture_event == e);
            }
            let best = if better {
                event
            } else {
                latest->Some_0
            };
            if better || latest is Some {
                assert forall|a: int|
                    0 <= a < all.len() && below(bound, (#[trigger] all[a]).capture_event) implies all[a].capture_event
                    <= best by {
                    if a < k {
                        assert(head[a] == all[a]);
                    }
                }
            }
        }
        if better {
            latest = Some(event);
        }
        k += 1;
    }
    proof {
        assert(rows@.take(n as int) =~= rows@);
        match latest {
            Some(e) => {
                lemma_latest_below(rows@, bound, e);
            },
            None => {
                if exists|e: i64| is_latest_below(rows@, bound, e) {
                    let e = choose|e: i64| is_latest_below(rows@, bound, e);
                    let at = choose|a: int|
                        0 <= a < rows@.len() && (#[trigger] rows@[a]).capture_event == e;
                    assert(below(bound, rows@[at].capture_event));
                }
            },
        }
    }
    latest
}

/// The two latest captures in the store, the older first.
///
/// Captures before those two are not looked at. Fails where the store holds
/// fewer than two captures.
pub fn find_dates(store: &Store) -> (dates: Result<(i64, i64), ErrorKind>)
    ensures
        dates == latest_two(store@.rows),
        dates is Ok <==> has_history(store@.rows),
        dates matches Ok((older, newer)) ==> older < newer && is_latest_below(
            store@.rows,
            None,
            newer,
        ) && is_latest_below(store@.rows, Some(newer), older),
        dates matches Err(e) ==> e == ErrorKind::NotEnoughHistory,
{
    let rows = store.rows();
    match latest_before(rows, None) {
        None => Err(ErrorKind::NotEnoughHistory),
        Some(newer) => match latest_before(rows, Some(newer)) {
            None => Err(ErrorKind::NotEnoughHistory),
            Some(older) => {
                proof {
                    let i = choose|k: int|
                        0 <= k < rows@.len() && (#[trigger] rows@[k]).capture_event == older;
                    let j = choose|k: int|
                        0 <= k < rows@.len() && (#[trigger] rows@[k]).capture_event == newer;
                    assert(rows@[i].capture_event != rows@[j].capture_event);
                }
                Ok((older, newer))
            },
        },
    }
}

/// The captures that the store holds, each once, the latest first.
pub fn capture_events(store: &Store) -> (events: Vec<i64>)
    ensures
        forall|i: int, j: int| 0 <= i < j < events@.len() ==> events@[i] > events@[j],
        forall|e: i64| has_event(store@.rows, e) <==> events@.contains(e),
{
    let rows = store.rows();
    let mut events: Vec<i64> = Vec::new();
    let mut bound: Option<i64> = None;
    loop
        invariant
            rows@ == store@.rows,
            forall|i: int, j: int| 0 <= i < j < events@.len() ==> events@[i] > events@[j],
            forall|i: int| 0 <= i < events@.len() ==> has_event(rows@, #[trigger] events@[i]),
            forall|i: int| 0 <= i < events@.len() ==> !below(bound, #[trigger] events@[i]),
            forall|k: int|
                0 <= k < rows@.len() && !below(bound, (#[trigger] rows@[k]).capture_event)
                    ==> events@.contains(rows@[k].capture_event),
        decreases
            (match bound {
                Some(b) => b - i64::MIN,
                None => i64::MAX - i64::MIN + 1,
            }),
    {
        match latest_before(rows, bound) {
            None => {
                proof {
                    assert forall|e: i64| has_event(rows@, e) implies events@.contains(e) by {
                        let k = choose|k: int|
                            0 <= k < rows@.len() && (#[trigger] rows@[k]).capture_event == e;
                        assert(!below(bound, rows@[k].capture_event));
                    }
                }
                return events;
            },
            Some(event) => {
                let ghost before = events@;
                events.push(event);
                proof {
                    assert forall|i: int, j: int| 0 <= i < j < events@.len() implies events@[i]
                        > events@[j] by {
                        if j == before.len() {
                            assert(events@[i] == before[i]);
                            assert(!below(bound, before[i]));
                        } else {
                            assert(before[i] > before[j]);
                        }
                    }
                    assert forall|k: int|
                        0 <= k < rows@.len() && !below(
                            Some(event),
                            (#[trigger] rows@[k]).capture_event,
                        ) implies events@.contains(rows@[k].capture_event) by {
                        let at = rows@[k].capture_event;
                        if !below(bound, at) {
                            let i = choose|i: int| 0 <= i < before.len() && before[i] == at;
                            assert(events@[i] == at);
                        } else {
                            assert(at == event);
                            assert(events@[before.len() as int] == at);
                        }
                    }
                    assert forall|i: int| 0 <= i < events@.len() implies !below(
                        Some(event),
                        #[trigger] events@[i],
                    ) by {
                        if i < before.len() {
                            assert(events@[i] == before[i]);
                            assert(!below(bound, before[i]));
                        }
                    }
                    assert forall|i: int| 0 <= i < events@.len() implies has_event(
                        rows@,
                        #[trigger] events@[i],
                    ) by {
                        if i < before.len() {
                            assert(events@[i] == before[i]);
                        }
                    }
                }
                bound = Some(event);
            },
        }
    }
}

} // verus!
