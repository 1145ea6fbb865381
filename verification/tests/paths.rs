use directory_capture::bytes::{copy_bytes, same_bytes};
use directory_capture::error::ErrorKind;
use directory_capture::numeric::to_signed;
use directory_capture::path_cache::{PathCache, DEFAULT_CAPACITY, MAX_CAPACITY};
use directory_capture::path_table::{PathEntry, PathTable};

fn p(s: &str) -> Vec<u8> {
    s.as_bytes().to_vec()
}

fn entry(id: i64, path: &str) -> PathEntry {
    PathEntry { id, path: p(path) }
}

#[test]
fn bytes_compare_by_content() {
    assert!(same_bytes(&p("a.txt"), &p("a.txt")));
    assert!(!same_bytes(&p("a.txt"), &p("a.txu")));
    assert!(!same_bytes(&p("a.txt"), &p("a.tx")));
    assert!(same_bytes(&Vec::new(), &Vec::new()));
    let odd = vec![0xff, 0x00, 0x80];
    assert_eq!(copy_bytes(&odd), odd);
}

#[test]
fn to_signed_keeps_values_that_fit() {
    assert_eq!(to_signed(0), Ok(0));
    assert_eq!(to_signed(5), Ok(5));
    assert_eq!(to_signed(i64::MAX as u64), Ok(i64::MAX));
}

#[test]
fn to_signed_refuses_values_beyond_the_range() {
    assert_eq!(to_signed(i64::MAX as u64 + 1), Err(ErrorKind::NumericOverflow));
    assert_eq!(to_signed(u64::MAX), Err(ErrorKind::NumericOverflow));
}

#[test]
fn new_table_is_empty() {
    let table = PathTable::new();
    assert_eq!(table.len(), 0);
    assert_eq!(table.find(&p("a.txt")), None);
    assert!(table.path_of(1).is_none());
}

#[test]
fn intern_gives_ids_from_one_upwards() {
    let mut table = PathTable::new();
    assert_eq!(table.intern(&p("a.txt")), Ok(1));
    assert_eq!(table.intern(&p("b.txt")), Ok(2));
    assert_eq!(table.intern(&p("c.txt")), Ok(3));
    assert_eq!(table.len(), 3);
    assert_eq!(table.entry(1).id, 2);
    assert_eq!(table.entry(1).path, p("b.txt"));
}

#[test]
fn intern_is_stable_and_injective() {
    let mut table = PathTable::new();
    let a = table.intern(&p("a.txt")).unwrap();
    let b = table.intern(&p("b.txt")).unwrap();
    assert_ne!(a, b);
    assert_eq!(table.intern(&p("a.txt")), Ok(a));
    assert_eq!(table.intern(&p("b.txt")), Ok(b));
    assert_eq!(table.len(), 2);
    assert_eq!(table.find(&p("a.txt")), Some(a));
    assert_eq!(table.find(&p("b.txt")), Some(b));
    assert_eq!(table.find(&p("c.txt")), None);
}

#[test]
fn intern_continues_above_the_last_id() {
    let mut table = PathTable::load(vec![entry(3, "x"), entry(10, "y")]).unwrap();
    assert_eq!(table.intern(&p("z")), Ok(11));
    assert_eq!(table.intern(&p("x")), Ok(3));
}

#[test]
fn intern_fails_when_ids_are_used_up() {
    let mut table = PathTable::load(vec![entry(1, "x"), entry(i64::MAX, "y")]).unwrap();
    assert_eq!(table.intern(&p("z")), Err(ErrorKind::Database));
    assert_eq!(table.len(), 2);
    assert_eq!(table.intern(&p("y")), Ok(i64::MAX));
}

#[test]
fn path_of_finds_every_id() {
    let table = PathTable::load(vec![
        entry(2, "b"),
        entry(3, "c"),
        entry(5, "e"),
        entry(8, "h"),
        entry(13, "m"),
    ])
    .unwrap();
    assert_eq!(table.path_of(2), Some(&p("b")));
    assert_eq!(table.path_of(3), Some(&p("c")));
    assert_eq!(table.path_of(5), Some(&p("e")));
    assert_eq!(table.path_of(8), Some(&p("h")));
    assert_eq!(table.path_of(13), Some(&p("m")));
    for missing in [i64::MIN, -1, 0, 1, 4, 6, 7, 9, 12, 14, i64::MAX] {
        assert_eq!(table.path_of(missing), None);
    }
}

#[test]
fn load_accepts_increasing_ids_and_distinct_paths() {
    let table = PathTable::load(vec![entry(1, "a"), entry(2, "b"), entry(7, "c")]).unwrap();
    assert_eq!(table.len(), 3);
    assert_eq!(table.find(&p("c")), Some(7));
    assert!(PathTable::load(Vec::new()).is_ok());
}

#[test]
fn load_refuses_an_id_that_is_not_positive() {
    assert_eq!(PathTable::load(vec![entry(0, "a")]).err(), Some(ErrorKind::DatabaseState));
    assert_eq!(PathTable::load(vec![entry(-4, "a"), entry(1, "b")]).err(), Some(ErrorKind::DatabaseState));
}

#[test]
fn load_refuses_ids_out_of_order() {
    assert_eq!(PathTable::load(vec![entry(2, "a"), entry(1, "b")]).err(), Some(ErrorKind::DatabaseState));
    assert_eq!(PathTable::load(vec![entry(2, "a"), entry(2, "b")]).err(), Some(ErrorKind::DatabaseState));
}

#[test]
fn load_refuses_a_path_recorded_twice() {
    assert_eq!(
        PathTable::load(vec![entry(1, "a"), entry(2, "b"), entry(3, "a")]).err(),
        Some(ErrorKind::DatabaseState)
    );
}

#[test]
fn cache_capacity_has_bounds() {
    assert_eq!(DEFAULT_CAPACITY, 4);
    assert_eq!(MAX_CAPACITY, 4096);
    assert!(PathCache::with_capacity(0).is_none());
    assert!(PathCache::with_capacity(1).is_some());
    assert!(PathCache::with_capacity(4096).is_some());
    assert!(PathCache::with_capacity(4097).is_none());
}

#[test]
fn new_cache_remembers_nothing() {
    let cache = PathCache::new();
    assert!(!cache.contains(&p("a.txt")));
}

#[test]
fn get_name_id_returns_the_same_id_twice() {
    let mut table = PathTable::new();
    let mut cache = PathCache::new();
    let first = cache.get_name_id(&mut table, &p("a.txt")).unwrap();
    assert!(cache.contains(&p("a.txt")));
    let second = cache.get_name_id(&mut table, &p("a.txt")).unwrap();
    assert_eq!(first, 1);
    assert_eq!(second, 1);
    assert_eq!(table.len(), 1);
}

#[test]
fn get_name_id_keeps_ids_across_runs() {
    let mut table = PathTable::new();
    let mut first_run = PathCache::new();
    let a = first_run.get_name_id(&mut table, &p("a.txt")).unwrap();
    let b = first_run.get_name_id(&mut table, &p("b.txt")).unwrap();
    let mut second_run = PathCache::new();
    assert_eq!(second_run.get_name_id(&mut table, &p("b.txt")), Ok(b));
    assert_eq!(second_run.get_name_id(&mut table, &p("a.txt")), Ok(a));
    assert_eq!(second_run.get_name_id(&mut table, &p("c.txt")), Ok(3));
    assert_ne!(a, b);
}

#[test]
fn get_name_id_answers_evicted_paths_from_the_table() {
    let mut table = PathTable::new();
    let mut cache = PathCache::with_capacity(2).unwrap();
    assert_eq!(cache.get_name_id(&mut table, &p("a")), Ok(1));
    assert_eq!(cache.get_name_id(&mut table, &p("b")), Ok(2));
    assert_eq!(cache.get_name_id(&mut table, &p("c")), Ok(3));
    assert!(!cache.contains(&p("a")));
    assert_eq!(cache.get_name_id(&mut table, &p("a")), Ok(1));
    assert_eq!(table.len(), 3);
}

#[test]
fn cache_evicts_the_least_recently_used_path() {
    let mut table = PathTable::new();
    let mut cache = PathCache::new();
    for name in ["a", "b", "c", "d"] {
        cache.get_name_id(&mut table, &p(name)).unwrap();
    }
    // A hit makes "a" the most recently used path, so "b" is now the oldest.
    assert_eq!(cache.get_name_id(&mut table, &p("a")), Ok(1));
    assert_eq!(cache.get_name_id(&mut table, &p("e")), Ok(5));
    assert!(cache.contains(&p("a")));
    assert!(!cache.contains(&p("b")));
    assert!(cache.contains(&p("c")));
    assert!(cache.contains(&p("d")));
    assert!(cache.contains(&p("e")));
}

#[test]
fn asking_the_cache_is_no_use_of_a_path() {
    let mut table = PathTable::new();
    let mut cache = PathCache::with_capacity(2).unwrap();
    cache.get_name_id(&mut table, &p("a")).unwrap();
    cache.get_name_id(&mut table, &p("b")).unwrap();
    assert!(cache.contains(&p("a")));
    cache.get_name_id(&mut table, &p("c")).unwrap();
    assert!(!cache.contains(&p("a")));
    assert!(cache.contains(&p("b")));
    assert!(cache.contains(&p("c")));
}

#[test]
fn get_name_id_fails_without_a_trace_when_ids_are_used_up() {
    let mut table = PathTable::load(vec![entry(i64::MAX, "last")]).unwrap();
    let mut cache = PathCache::new();
    assert_eq!(cache.get_name_id(&mut table, &p("new")), Err(ErrorKind::Database));
    assert!(!cache.contains(&p("new")));
    assert_eq!(table.len(), 1);
    assert_eq!(cache.get_name_id(&mut table, &p("last")), Ok(i64::MAX));
}
