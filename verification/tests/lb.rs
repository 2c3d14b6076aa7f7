use iris::lb::{expand, LoadBalancer, NodeView, MAX_WEIGHT};
use iris::model::{Hop, HopNode};
use iris::net::IpAddress;

fn hop(strategy: &str, nodes: &[(&str, u32)]) -> Hop {
    Hop {
        strategy: strategy.to_string(),
        nodes: nodes
            .iter()
            .map(|(id, w)| HopNode { id: (*id).to_string(), weight: *w })
            .collect(),
    }
}

fn ip(b: u8) -> IpAddress {
    IpAddress::V4([10, 0, 0, b])
}

fn view(health: &[(&str, &str)], latency: &[(&str, u32)]) -> NodeView {
    NodeView {
        health: health.iter().map(|(k, v)| (k.to_string(), v.to_string())).collect(),
        latency: latency.iter().map(|(k, v)| (k.to_string(), *v)).collect(),
    }
}

#[test]
fn single_node() {
    let mut lb = LoadBalancer::new();
    let h = hop("weighted", &[("b", 1)]);
    assert_eq!(lb.select_ordered(1, 1, &h, &ip(1), &NodeView::default()), vec!["b"]);
}

#[test]
fn weighted_primary_respects_weights() {
    let mut lb = LoadBalancer::new();
    let h = hop("weighted", &[("b1", 3), ("b2", 1)]);
    let (mut b1, mut b2) = (0, 0);
    for _ in 0..400 {
        match lb.select_ordered(1, 1, &h, &ip(1), &NodeView::default())[0].as_str() {
            "b1" => b1 += 1,
            "b2" => b2 += 1,
            _ => unreachable!(),
        }
    }
    assert_eq!((b1, b2), (300, 100));
}

#[test]
fn weighted_has_failover_fallback() {
    let mut lb = LoadBalancer::new();
    let h = hop("weighted", &[("b1", 1), ("b2", 1)]);
    let ord = lb.select_ordered(1, 1, &h, &ip(1), &NodeView::default());
    assert_eq!(ord.len(), 2);
}

#[test]
fn source_hash_sticky() {
    let mut lb = LoadBalancer::new();
    let h = hop("source_hash", &[("b1", 1), ("b2", 1)]);
    let first = lb.select_ordered(1, 1, &h, &ip(7), &NodeView::default())[0].clone();
    for _ in 0..50 {
        assert_eq!(lb.select_ordered(1, 1, &h, &ip(7), &NodeView::default())[0], first);
    }
}

#[test]
fn source_hash_stable_on_topology_change() {
    let mut lb = LoadBalancer::new();
    let h3 = hop("source_hash", &[("b1", 1), ("b2", 1), ("b3", 1)]);
    let chosen = lb.select_ordered(1, 1, &h3, &ip(7), &NodeView::default())[0].clone();
    let others: Vec<(&str, u32)> = [("b1", 1u32), ("b2", 1), ("b3", 1)]
        .into_iter()
        .filter(|(id, _)| *id != chosen)
        .collect();
    let removed = others[0].0;
    let h2 = hop(
        "source_hash",
        &[("b1", 1), ("b2", 1), ("b3", 1)]
            .into_iter()
            .filter(|(id, _)| *id != removed)
            .collect::<Vec<_>>(),
    );
    assert_eq!(
        lb.select_ordered(1, 1, &h2, &ip(7), &NodeView::default())[0],
        chosen,
        "removing a node that was not chosen must keep the primary"
    );
}

#[test]
fn unhealthy_skipped() {
    let mut lb = LoadBalancer::new();
    let h = hop("weighted", &[("b1", 1), ("b2", 1)]);
    let v = view(&[("b1", "unhealthy"), ("b2", "healthy")], &[]);
    for _ in 0..20 {
        assert_eq!(lb.select_ordered(1, 1, &h, &ip(1), &v)[0], "b2");
    }
}

#[test]
fn latency_lowest_first() {
    let mut lb = LoadBalancer::new();
    let h = hop("latency", &[("b1", 1), ("b2", 1)]);
    let v = view(&[], &[("b1", 50), ("b2", 8)]);
    assert_eq!(lb.select_ordered(1, 1, &h, &ip(1), &v)[0], "b2");
}

#[test]
fn least_conn_orders_by_load() {
    let mut lb = LoadBalancer::new();
    let h = hop("least_conn", &[("b1", 1), ("b2", 1)]);
    let _g = lb.track("b1");
    assert_eq!(lb.select_ordered(1, 1, &h, &ip(1), &NodeView::default())[0], "b2");
}

#[test]
fn conn_guard_decrements() {
    let mut lb = LoadBalancer::new();
    {
        let g = lb.track("x");
        assert_eq!(lb.connections("x"), 1);
        lb.release(g);
    }
    assert_eq!(lb.connections("x"), 0);
}

#[test]
fn huge_weight_capped() {
    let n = vec![HopNode { id: "x".to_string(), weight: u32::MAX }];
    assert_eq!(expand(&n).len(), MAX_WEIGHT as usize);
}

#[test]
fn all_unhealthy_degrades() {
    let mut lb = LoadBalancer::new();
    let h = hop("weighted", &[("b1", 1), ("b2", 1)]);
    let v = view(&[("b1", "unhealthy"), ("b2", "unhealthy")], &[]);
    assert_eq!(lb.select_ordered(1, 1, &h, &ip(1), &v).len(), 2, "all down degrades to all candidates");
}

// ── further cases ──

#[test]
fn weighted_round_robin_order_and_fallback() {
    let mut lb = LoadBalancer::new();
    let h = hop("weighted", &[("a", 2), ("b", 1)]);
    let v = NodeView::default();
    assert_eq!(lb.select_ordered(9, 0, &h, &ip(1), &v), vec!["a", "b"]);
    assert_eq!(lb.select_ordered(9, 0, &h, &ip(1), &v), vec!["a", "b"]);
    assert_eq!(lb.select_ordered(9, 0, &h, &ip(1), &v), vec!["b", "a"]);
    assert_eq!(lb.select_ordered(9, 0, &h, &ip(1), &v), vec!["a", "b"]);
    // another hop has its own counter
    assert_eq!(lb.select_ordered(9, 1, &h, &ip(1), &v), vec!["a", "b"]);
}

#[test]
fn zero_weight_counts_as_one() {
    let n = vec![
        HopNode { id: "a".to_string(), weight: 0 },
        HopNode { id: "b".to_string(), weight: 2 },
    ];
    assert_eq!(expand(&n), vec!["a", "b", "b"]);
}

#[test]
fn latency_ties_break_by_id_and_missing_is_slowest() {
    let mut lb = LoadBalancer::new();
    let h = hop("latency", &[("c", 1), ("b", 1), ("a", 1)]);
    let v = view(&[], &[("c", 5), ("b", 5)]);
    assert_eq!(lb.select_ordered(1, 1, &h, &ip(1), &v), vec!["b", "c", "a"]);
}

#[test]
fn least_conn_divides_by_weight() {
    let mut lb = LoadBalancer::new();
    let h = hop("least_conn", &[("a", 1), ("b", 4)]);
    let _g1 = lb.track("b");
    let _g2 = lb.track("b");
    let _g3 = lb.track("a");
    // a: 1/1, b: 2/4
    assert_eq!(lb.select_ordered(1, 1, &h, &ip(1), &NodeView::default()), vec!["b", "a"]);
}

#[test]
fn release_never_goes_negative() {
    let mut lb = LoadBalancer::new();
    let g = lb.track("n");
    let g2 = lb.track("m");
    lb.release(g);
    assert_eq!(lb.connections("n"), 0);
    assert_eq!(lb.connections("m"), 1);
    lb.release(g2);
    assert_eq!(lb.connections("m"), 0);
}

#[test]
fn later_health_entry_wins() {
    let v = view(&[("a", "unhealthy"), ("a", "healthy")], &[("a", 3), ("a", 9)]);
    assert!(v.usable("a"));
    assert_eq!(v.latency("a"), 9);
    assert_eq!(v.latency("zz"), u32::MAX);
    assert!(v.usable("zz"));
}

#[test]
fn source_hash_lists_every_candidate_once() {
    let mut lb = LoadBalancer::new();
    let h = hop("source_hash", &[("b1", 1), ("b2", 5), ("b3", 1)]);
    let mut got = lb.select_ordered(1, 1, &h, &IpAddress::V6([0; 16]), &NodeView::default());
    got.sort();
    assert_eq!(got, vec!["b1", "b2", "b3"]);
}
