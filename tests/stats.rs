use qlog::{sort_queries, KeySource, QueryInfo, ShapeFingerprint};

fn info(hash: u64, calls: u64, total: u64, max: u64, slow: u64, uuid: &str) -> QueryInfo {
    let mut q = QueryInfo::new("query".to_string(), "Qm".to_string(), 0, hash);
    q.calls = calls;
    q.total_time = total;
    q.time_squared = total * max;
    q.max_time = max;
    q.slow_count = slow;
    q.max_uuid = uuid.to_string();
    q
}

#[test]
fn new_group_is_empty() {
    let q = QueryInfo::new("query A".to_string(), "Qm".to_string(), 3, 99);
    assert_eq!((q.calls, q.total_time, q.time_squared, q.max_time, q.slow_count), (0, 0, 0, 0, 0));
    assert_eq!((q.id, q.hash, q.max_complexity), (3, 99, 0));
    assert_eq!(q.max_uuid, "(none)");
    assert_eq!(q.max_variables, "null");
}

#[test]
fn add_accumulates_and_keeps_first_slowest() {
    let mut q = QueryInfo::new("q0".to_string(), "Qm".to_string(), 1, 7);
    q.add(10, "id1", "q1", "v1", 1);
    q.add(2000, "id2", "q2", "v2", 2);
    q.add(2000, "id3", "q3", "v3", 3);
    q.add(1000, "id4", "q4", "v4", 4);
    assert_eq!(q.calls, 4);
    assert_eq!(q.total_time, 5010);
    assert_eq!(q.time_squared, 100 + 4_000_000 + 4_000_000 + 1_000_000);
    assert_eq!(q.slow_count, 2);
    assert_eq!(q.max_time, 2000);
    assert_eq!((q.max_uuid.as_str(), q.max_variables.as_str(), q.query.as_str()), ("id2", "v2", "q2"));
    assert_eq!(q.max_complexity, 2);
}

#[test]
fn single_call_has_no_spread() {
    let mut q = QueryInfo::new("q0".to_string(), "Qm".to_string(), 1, 7);
    q.add(160, "id", "q", "null", 0);
    assert_eq!(q.calls as u128 * q.time_squared as u128, q.total_time as u128 * q.total_time as u128);
    q.add(40, "id", "q", "null", 0);
    assert!(q.calls as u128 * q.time_squared as u128 >= q.total_time as u128 * q.total_time as u128);
}

#[test]
fn add_refuses_overflow() {
    let q = QueryInfo::new("q0".to_string(), "Qm".to_string(), 1, 7);
    assert!(!q.can_add(u64::MAX));
    assert!(q.can_add((1u64 << 32) - 1));
    assert!(!q.can_add(1u64 << 32));
}

#[test]
fn combine_sums_and_takes_strictly_slower() {
    let mut a = info(1, 2, 300, 200, 0, "a");
    a.query = "text a".to_string();
    let mut b = info(1, 3, 900, 500, 1, "b");
    b.query = "text b".to_string();
    b.max_variables = "{\"x\":1}".to_string();
    b.max_complexity = 9;
    assert!(a.can_combine(&b));
    a.combine(&b);
    assert_eq!((a.calls, a.total_time, a.slow_count, a.max_time), (5, 1200, 1, 500));
    assert_eq!(a.time_squared, 300 * 200 + 900 * 500);
    assert_eq!((a.max_uuid.as_str(), a.query.as_str(), a.max_complexity), ("b", "text b", 9));
    assert_eq!(a.max_variables, "{\"x\":1}");

    let mut c = info(1, 1, 500, 500, 0, "c");
    c.combine(&info(1, 1, 500, 500, 0, "d"));
    assert_eq!(c.max_uuid, "c");
    assert_eq!(c.calls, 2);
    assert!(!c.can_combine(&info(1, u64::MAX, 0, 0, 0, "e")));
}

struct Fixed(Option<u64>);

impl ShapeFingerprint for Fixed {
    fn fingerprint(&self, _query: &str) -> Option<u64> {
        self.0
    }
}

#[test]
fn restore_hash_fills_only_missing_keys() {
    let mut q = info(0, 1, 1, 1, 0, "u");
    q.restore_hash(&Fixed(Some(42)));
    assert_eq!(q.hash, qlog::key_for(KeySource::Shape(42), "query", "Qm"));
    assert_ne!(q.hash, 0);
    assert_eq!((q.calls, q.total_time, q.max_uuid.as_str()), (1, 1, "u"));

    let mut r = info(0, 1, 1, 1, 0, "u");
    r.restore_hash(&Fixed(None));
    assert_eq!(r.hash, qlog::key_for(KeySource::Text, "query", "Qm"));

    let mut s = info(5, 1, 1, 1, 0, "u");
    s.restore_hash(&Fixed(Some(42)));
    assert_eq!(s.hash, 5);
}

fn hashes(v: &[QueryInfo]) -> Vec<u64> {
    v.iter().map(|q| q.hash).collect()
}

#[test]
fn sort_by_each_column_largest_first() {
    let base = vec![
        info(1, 10, 100, 50, 3, "b"),
        info(2, 30, 90, 70, 1, "c"),
        info(3, 20, 400, 60, 2, "a"),
    ];
    let mut v = base.clone();
    sort_queries(&mut v, "calls");
    assert_eq!(hashes(&v), vec![2, 3, 1]);
    let mut v = base.clone();
    sort_queries(&mut v, "avg");
    assert_eq!(hashes(&v), vec![3, 1, 2]);
    let mut v = base.clone();
    sort_queries(&mut v, "max_time");
    assert_eq!(hashes(&v), vec![2, 3, 1]);
    let mut v = base.clone();
    sort_queries(&mut v, "slow");
    assert_eq!(hashes(&v), vec![1, 3, 2]);
    let mut v = base.clone();
    sort_queries(&mut v, "uuid");
    assert_eq!(hashes(&v), vec![2, 1, 3]);
    let mut v = base.clone();
    sort_queries(&mut v, "total_time");
    assert_eq!(hashes(&v), vec![3, 1, 2]);
    let mut v = base.clone();
    sort_queries(&mut v, "");
    assert_eq!(hashes(&v), vec![3, 1, 2]);
}

#[test]
fn sort_keeps_equal_rows_in_order() {
    let mut v = vec![info(1, 1, 5, 5, 0, "x"), info(2, 1, 5, 5, 0, "x"), info(3, 2, 7, 5, 0, "x")];
    sort_queries(&mut v, "max");
    assert_eq!(hashes(&v), vec![1, 2, 3]);
    assert_eq!(qlog::stats::sort_key("zzz"), qlog::SortKey::Total);
}
