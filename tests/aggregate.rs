use qlog::aggregate::process_line;
use qlog::Sampler;
use rand::rngs::SmallRng;
use rand::SeedableRng;
use qlog::{combine, Aggregator, KeySource, Overflow, QueryInfo, ShapeFingerprint};

struct Unparsed;

impl ShapeFingerprint for Unparsed {
    fn fingerprint(&self, _query: &str) -> Option<u64> {
        None
    }
}

fn feed(agg: &mut Aggregator, records: &[(&str, u64)]) {
    for (i, (query, time)) in records.iter().enumerate() {
        let id = format!("id{}", i);
        agg.add_entry(&Unparsed, *time, 0, &id, query, "null", "Qm").unwrap();
    }
}

fn by_key(v: &[QueryInfo]) -> Vec<(u64, u64, u64, u64, u64, u64)> {
    v.iter().map(|q| (q.hash, q.calls, q.total_time, q.time_squared, q.slow_count, q.max_time)).collect()
}

#[test]
fn groups_get_dense_ids_in_first_seen_order() {
    let mut agg = Aggregator::new();
    feed(&mut agg, &[("{ b }", 5), ("{ a }", 7), ("{ b }", 3), ("{ c }", 1)]);
    let out = agg.finish();
    assert_eq!(out.len(), 3);
    let kb = qlog::key_for(KeySource::Text, "{ b }", "Qm");
    let ka = qlog::key_for(KeySource::Text, "{ a }", "Qm");
    let kc = qlog::key_for(KeySource::Text, "{ c }", "Qm");
    let find = |k: u64| out.iter().find(|q| q.hash == k).unwrap();
    assert_eq!((find(kb).id, find(ka).id, find(kc).id), (1, 2, 3));
    assert_eq!((find(kb).calls, find(kb).total_time, find(kb).max_uuid.as_str()), (2, 8, "id0"));
    let mut keys: Vec<u64> = out.iter().map(|q| q.hash).collect();
    let sorted = {
        let mut k = keys.clone();
        k.sort();
        k
    };
    assert_eq!(keys, sorted);
    keys.dedup();
    assert_eq!(keys.len(), 3);
}

#[test]
fn record_that_would_overflow_is_refused() {
    let mut agg = Aggregator::new();
    assert_eq!(agg.add_keyed(9, u64::MAX, 0, "id", "{ a }", "null", "Qm"), Err(Overflow));
    assert_eq!(agg.add_keyed(9, 4_000_000_000, 0, "id", "{ a }", "null", "Qm"), Ok(()));
    assert_eq!(agg.add_keyed(9, 4_000_000_000, 0, "id", "{ a }", "null", "Qm"), Err(Overflow));
    let out = agg.finish();
    assert_eq!(out.len(), 1);
    assert_eq!((out[0].calls, out[0].total_time, out[0].slow_count), (1, 4_000_000_000, 1));
}

#[test]
fn sharded_aggregation_matches_whole_log() {
    let log: Vec<(&str, u64)> = vec![
        ("{ a }", 5), ("{ b }", 1200), ("{ a }", 9), ("{ c }", 3), ("{ b }", 40),
        ("{ a }", 5000), ("{ c }", 3), ("{ b }", 1200),
    ];
    let mut whole = Aggregator::new();
    feed(&mut whole, &log);
    let whole = whole.finish();

    let even: Vec<(&str, u64)> = log.iter().step_by(2).cloned().collect();
    let odd: Vec<(&str, u64)> = log.iter().skip(1).step_by(2).cloned().collect();
    let mut s1 = Aggregator::new();
    feed(&mut s1, &odd);
    let mut s2 = Aggregator::new();
    feed(&mut s2, &even);
    let mut parts = s1.finish();
    parts.extend(s2.finish());
    let merged = combine(parts).unwrap();
    assert_eq!(by_key(&merged), by_key(&whole));

    let mut t1 = Aggregator::new();
    feed(&mut t1, &log[..3]);
    let mut t2 = Aggregator::new();
    feed(&mut t2, &log[3..]);
    let mut parts = t2.finish();
    parts.extend(t1.finish());
    let merged = combine(parts).unwrap();
    assert_eq!(by_key(&merged), by_key(&whole));
}

fn stored(hash: u64, calls: u64, total: u64, max: u64, uuid: &str, id: usize) -> QueryInfo {
    let mut q = QueryInfo::new(format!("text {}", uuid), "Qm".to_string(), id, hash);
    q.calls = calls;
    q.total_time = total;
    q.time_squared = total * 2;
    q.max_time = max;
    q.max_uuid = uuid.to_string();
    q
}

#[test]
fn combine_merges_by_key_and_renumbers_from_zero() {
    let infos = vec![
        stored(30, 1, 10, 10, "a", 1),
        stored(10, 2, 20, 15, "b", 1),
        stored(30, 3, 30, 25, "c", 2),
        stored(20, 1, 5, 5, "d", 7),
    ];
    let out = combine(infos).unwrap();
    assert_eq!(out.iter().map(|q| q.hash).collect::<Vec<_>>(), vec![10, 20, 30]);
    assert_eq!(out.iter().map(|q| q.id).collect::<Vec<_>>(), vec![0, 1, 2]);
    assert_eq!((out[2].calls, out[2].total_time, out[2].time_squared, out[2].max_time), (4, 40, 80, 25));
    assert_eq!((out[2].max_uuid.as_str(), out[2].query.as_str()), ("c", "text c"));
    assert_eq!(out[0].max_uuid, "b");
    assert_eq!(combine(vec![]).unwrap().len(), 0);
}

#[test]
fn combine_refuses_overflow() {
    let infos = vec![stored(1, u64::MAX, 1, 1, "a", 0), stored(1, 1, 1, 1, "b", 0)];
    assert_eq!(combine(infos).map(|v| v.len()), Err(Overflow));
}

#[test]
fn first_call_of_zero_ms_keeps_defaults() {
    let mut agg = Aggregator::new();
    agg.add_keyed(3, 0, 5, "id0", "{ a }", "{}", "Qm").unwrap();
    let out = agg.finish();
    assert_eq!((out[0].max_uuid.as_str(), out[0].max_variables.as_str(), out[0].max_complexity), ("(none)", "null", 0));
    assert_eq!((out[0].calls, out[0].query.as_str(), out[0].id), (1, "{ a }", 1));
}

#[test]
fn combine_tie_keeps_first_input_details() {
    let infos = vec![stored(8, 1, 10, 10, "first", 0), stored(8, 1, 10, 10, "second", 0)];
    let out = combine(infos).unwrap();
    assert_eq!((out[0].max_uuid.as_str(), out[0].query.as_str()), ("first", "text first"));
}

#[test]
fn process_line_feeds_sampler_and_statistics() {
    let mut agg = Aggregator::new();
    let mut sampler = Sampler::new(2, vec![], SmallRng::from_entropy());
    let line = "Dec 30 20:55:13.071 INFO Query timing (GraphQL), block: 1, query_time_ms: 1500, \
                variables: null, query: { a } , query_id: 1f-2, subgraph_id: Qm, component: G";
    assert_eq!(process_line(line, &Unparsed, &mut agg, &mut sampler), Ok(true));
    assert_eq!(process_line("not a query", &Unparsed, &mut agg, &mut sampler), Ok(false));
    let out = agg.finish();
    assert_eq!(out.len(), 1);
    assert_eq!((out[0].calls, out[0].total_time, out[0].slow_count), (1, 1500, 1));
    assert_eq!(out[0].hash, qlog::key_for(KeySource::Embedded(0x1f), "{ a }", "Qm"));
    assert_eq!(sampler.entries().len(), 1);
}
