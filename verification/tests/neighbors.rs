use iris::neighbor::{probe_targets, NeighborBook, NEIGHBOR_FAIL_THRESHOLD};

#[test]
fn first_answer_has_no_sample_before() {
    let mut b = NeighborBook::new();
    assert!(!b.record_ok("a"));
    assert!(b.record_ok("a"));
    assert_eq!(b.sampled(), vec!["a".to_string()]);
}

#[test]
fn fail_threshold_drops_sample() {
    let mut b = NeighborBook::new();
    b.record_ok("a");
    for _ in 0..NEIGHBOR_FAIL_THRESHOLD - 1 {
        b.record_fail("a");
        assert_eq!(b.sampled(), vec!["a".to_string()]);
    }
    b.record_fail("a");
    assert!(b.sampled().is_empty());
    assert_eq!(b.get("a"), (NEIGHBOR_FAIL_THRESHOLD, false));
    // the next answer brings it back, taken as is
    assert!(!b.record_ok("a"));
    assert_eq!(b.get("a"), (0, true));
}

#[test]
fn unknown_neighbors_forgotten() {
    let mut b = NeighborBook::new();
    b.record_ok("a");
    b.record_ok("b");
    b.record_fail("c");
    b.gc_unknown(&vec!["b".to_string(), "c".to_string()]);
    assert_eq!(b.sampled(), vec!["b".to_string()]);
    assert_eq!(b.get("a"), (0, false));
    assert_eq!(b.get("c"), (1, false));
}

#[test]
fn probe_round_skips_self_and_blank() {
    let ns = vec![
        ("me".to_string(), "1.1.1.1:1".to_string()),
        ("x".to_string(), "".to_string()),
        ("y".to_string(), "2.2.2.2:2".to_string()),
    ];
    assert_eq!(probe_targets("me", &ns), vec![("y".to_string(), "2.2.2.2:2".to_string())]);
}
