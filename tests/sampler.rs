use rand::Rng;
use qlog::sampler::SampleDomain;
use qlog::{Entry, Sampler};
use rand::rngs::SmallRng;
use rand::SeedableRng;

fn entry(subgraph: &str, query: &str, variables: &str) -> Entry {
    Entry {
        subgraph: subgraph.to_string(),
        query_id: format!("{}-{}", query.len(), variables.len()),
        block: 1,
        time: 2,
        query: query.to_string(),
        variables: variables.to_string(),
        timestamp: None,
    }
}

#[test]
fn size_zero_samples_nothing() {
    let mut s = Sampler::new(0, vec![], SmallRng::from_entropy());
    s.sample(&entry("Qm1", "{ a }", "null"));
    assert!(s.entries().is_empty());
}

#[test]
fn reserved_subgraphs_are_never_sampled() {
    let mut s = Sampler::new(5, vec![], SmallRng::from_entropy());
    s.sample(&entry("indexnode", "{ a }", "null"));
    s.sample(&entry("subgraphs", "{ b }", "null"));
    s.sample(&entry("Qm1", "{ c }", "null"));
    let out = s.entries();
    assert_eq!(out.len(), 1);
    assert_eq!(out[0].subgraph, "Qm1");

    let mut s = Sampler::new(5, vec!["indexnode".to_string(), "subgraphs".to_string()], SmallRng::from_entropy());
    s.sample(&entry("indexnode", "{ a }", "null"));
    s.sample(&entry("subgraphs", "{ b }", "null"));
    assert!(s.entries().is_empty());
}

#[test]
fn allow_list_limits_subgraphs() {
    let mut s = Sampler::new(5, vec!["Qm2".to_string()], SmallRng::from_entropy());
    s.sample(&entry("Qm1", "{ a }", "null"));
    s.sample(&entry("Qm2", "{ b }", "null"));
    let out = s.entries();
    assert_eq!(out.len(), 1);
    assert_eq!((out[0].subgraph.as_str(), out[0].query.as_str()), ("Qm2", "{ b }"));
}

#[test]
fn reservoir_holds_min_of_size_and_distinct_count() {
    let mut s = Sampler::new(3, vec![], SmallRng::from_entropy());
    for i in 0..10 {
        s.sample(&entry("Qm1", &format!("{{ q{} }}", i), "null"));
    }
    for i in 0..2 {
        s.sample(&entry("Qm2", &format!("{{ q{} }}", i), "null"));
    }
    let out = s.entries();
    assert_eq!(out.iter().filter(|e| e.subgraph == "Qm1").count(), 3);
    assert_eq!(out.iter().filter(|e| e.subgraph == "Qm2").count(), 2);
    assert_eq!(out[0].subgraph, "Qm1");
    assert_eq!(out[4].subgraph, "Qm2");
    assert_eq!(out[3].query, "{ q0 }");
    assert_eq!(out[3].time, 2);
}

#[test]
fn repeated_pairs_count_once() {
    let mut s = Sampler::new(1, vec![], SmallRng::from_entropy());
    for _ in 0..50 {
        s.sample(&entry("Qm1", "{ a }", "null"));
    }
    s.sample(&entry("Qm1", "{ a }", "{\"x\":1}"));
    assert_eq!(s.domains[0].domain.seen_count, 2);
    assert_eq!(s.entries().len(), 1);
}

#[test]
fn first_items_are_kept_until_full() {
    let mut s = Sampler::new(4, vec![], SmallRng::from_entropy());
    for i in 0..4 {
        s.sample(&entry("Qm1", &format!("{{ q{} }}", i), "null"));
    }
    let queries: Vec<String> = s.entries().into_iter().map(|e| e.query).collect();
    assert_eq!(queries, vec!["{ q0 }", "{ q1 }", "{ q2 }", "{ q3 }"]);
}

#[test]
fn each_distinct_pair_is_kept_with_equal_frequency() {
    let n = 10;
    let k = 3;
    let runs = 3000;
    let mut hits = vec![0u32; n];
    for _ in 0..runs {
        let mut s = Sampler::new(k, vec![], SmallRng::from_entropy());
        for i in 0..n {
            s.sample(&entry("Qm1", &format!("{{ q{} }}", i), "null"));
        }
        let out = s.entries();
        assert_eq!(out.len(), k);
        for e in out {
            let i: usize = e.query[3..e.query.len() - 2].parse().unwrap();
            hits[i] += 1;
        }
    }
    for h in hits {
        let freq = h as f64 / runs as f64;
        assert!((freq - k as f64 / n as f64).abs() < 0.06, "frequency {}", freq);
    }
}

#[test]
fn reservoirs_come_out_in_subgraph_order() {
    let mut s = Sampler::new(2, vec![], SmallRng::from_entropy());
    s.sample(&entry("QmC", "{ c }", "null"));
    s.sample(&entry("QmA", "{ a }", "null"));
    s.sample(&entry("QmB", "{ b }", "null"));
    s.sample(&entry("QmA", "{ a2 }", "null"));
    let names: Vec<String> = s.entries().into_iter().map(|e| e.subgraph).collect();
    assert_eq!(names, vec!["QmA", "QmA", "QmB", "QmC"]);
}

#[test]
fn excluded_record_leaves_generator_alone() {
    let mut s = Sampler::new(2, vec![], SmallRng::seed_from_u64(7));
    s.sample(&entry("indexnode", "{ a }", "null"));
    let mut fresh = SmallRng::seed_from_u64(7);
    let drawn: u64 = s.rng.gen();
    assert_eq!(drawn, fresh.gen::<u64>());
}

fn queries(d: &SampleDomain) -> Vec<String> {
    d.samples.iter().map(|s| s.query.clone()).collect()
}

#[test]
fn place_keeps_then_replaces_the_drawn_slot() {
    let mut d = SampleDomain::new();
    d.place(2, &entry("Qm", "{ a }", "null"), 0);
    d.place(2, &entry("Qm", "{ b }", "null"), 1);
    assert_eq!(queries(&d), vec!["{ a }", "{ b }"]);
    d.place(2, &entry("Qm", "{ c }", "null"), 1);
    assert_eq!(queries(&d), vec!["{ a }", "{ c }"]);
    d.place(2, &entry("Qm", "{ d }", "null"), 0);
    assert_eq!(queries(&d), vec!["{ d }", "{ c }"]);
    d.place(2, &entry("Qm", "{ e }", "null"), 2);
    assert_eq!(queries(&d), vec!["{ d }", "{ c }"]);
    assert_eq!(d.seen_count, 5);
    assert_eq!(d.seen.len(), 5);
}
