use iris::latency::LatencyMatrix;

fn nbrs(pairs: &[(&str, u32)]) -> Vec<(String, u32)> {
    pairs.iter().map(|(k, v)| (k.to_string(), *v)).collect()
}

fn ids(v: &[&str]) -> Vec<String> {
    v.iter().map(|s| s.to_string()).collect()
}

fn get(row: &[(String, u32)], k: &str) -> Option<u32> {
    row.iter().rev().find(|(id, _)| id == k).map(|(_, v)| *v)
}

#[test]
fn record_and_row() {
    let mut m = LatencyMatrix::new(60_000);
    m.record_row("a", &nbrs(&[("b", 10), ("c", 30)]));
    let row = m.row("a", &ids(&["b", "c", "d"]));
    assert_eq!(get(&row, "b"), Some(10));
    assert_eq!(get(&row, "c"), Some(30));
    assert!(get(&row, "d").is_none(), "d has no sample");
}

#[test]
fn skips_self_edge() {
    let mut m = LatencyMatrix::new(60_000);
    m.record_row("a", &nbrs(&[("a", 1), ("b", 9)]));
    assert!(get(&m.row("a", &ids(&["a", "b"])), "a").is_none());
}

#[test]
fn ttl_evicts_stale_on_query() {
    let mut m = LatencyMatrix::new(20);
    m.record_row_at("a", &nbrs(&[("b", 5)]), 0);
    assert!(m.row_at("a", &ids(&["b"]), 40).is_empty(), "a stale sample is skipped");
}

#[test]
fn gc_cleans_stale() {
    let mut m = LatencyMatrix::new(20);
    m.record_row_at("a", &nbrs(&[("b", 5), ("c", 8)]), 0);
    m.record_row_at("a", &nbrs(&[("b", 7)]), 40);
    let removed = m.gc_at(40);
    assert_eq!(removed, 1, "only (a,c) is collected");
}

#[test]
fn drop_node_removes_both_directions() {
    let mut m = LatencyMatrix::new(60_000);
    m.record_row("a", &nbrs(&[("b", 5)]));
    m.record_row("b", &nbrs(&[("a", 6)]));
    m.drop_node("a");
    assert!(m.row("a", &ids(&["b"])).is_empty());
    assert!(m.row("b", &ids(&["a"])).is_empty());
}

#[test]
fn later_sample_overrides_and_empty_id_skipped() {
    let mut m = LatencyMatrix::new(100);
    m.record_row_at("a", &nbrs(&[("b", 5), ("", 3), ("b", 6)]), 10);
    m.record_row_at("a", &nbrs(&[("c", 1)]), 20);
    assert_eq!(m.row_at("a", &ids(&["b", "c", ""]), 30), nbrs(&[("b", 6), ("c", 1)]));
    let mut d = m.dump_at(30);
    d.sort();
    assert_eq!(d, vec![("a".to_string(), "b".to_string(), 6), ("a".to_string(), "c".to_string(), 1)]);
    // b's sample, taken at 10, is stale at 115 (age 105 > 100); c's (age 95) is not
    assert_eq!(m.row_at("a", &ids(&["b", "c"]), 115), nbrs(&[("c", 1)]));
    assert_eq!(m.gc_at(115), 1);
}
