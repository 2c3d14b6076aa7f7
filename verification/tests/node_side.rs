use iris::control::{ForwardRule, NodeAddr};
use iris::dataplane::{addr_of, effective_targets, node_view, TargetRouter, TrafficCounter, TunnelHeader};
use iris::model::{Hop, HopNode, TargetEndpoint};
use iris::net::{ip_or_unspecified, IpAddress};
use iris::node::{
    bind_status, build_nodes, decide, plan_forward, probe_reply, probe_timeout_ms, ConnectOutcome, renew_due, renew_jitter_secs, tunnel_route,
    udp_idle, vanished, Route, Step, TunnelError, TunnelRoute,
};
use iris::session::{wrapping_add_usize, SessionState, SessionTable, CLOSE_GRACE_MS};

fn hop(ids: &[&str]) -> Hop {
    Hop {
        strategy: "weighted".to_string(),
        nodes: ids.iter().map(|id| HopNode { id: id.to_string(), weight: 1 }).collect(),
    }
}

fn target(a: &str, w: u32) -> TargetEndpoint {
    TargetEndpoint { addr: a.to_string(), weight: w }
}

fn rule(id: i64, proto: &str, hops: Vec<Hop>, targets: Vec<TargetEndpoint>) -> ForwardRule {
    ForwardRule {
        id,
        listen_port: 10000,
        protocol: proto.to_string(),
        hops,
        target: String::new(),
        enabled: true,
        targets,
        target_strategy: String::new(),
        rate_in_bps: 0,
        rate_out_bps: 0,
    }
}

#[test]
fn traffic_counter_wraps() {
    let mut c = TrafficCounter::new();
    c.add_in(5);
    c.add_out(7);
    assert_eq!((c.bytes_in, c.bytes_out), (5, 7));
    c.set_in_absolute(u64::MAX);
    c.add_in(2);
    assert_eq!(c.bytes_in, 1);
    c.set_out_absolute(3);
    assert_eq!(c.bytes_out, 3);
    assert_eq!(wrapping_add_usize(u64::MAX, 1), 0);
}

#[test]
fn target_router_weighted_round_robin() {
    let mut r = TargetRouter::new();
    let ts = vec![target("a:1", 2), target(" ", 9), target("b:1", 1)];
    let ip = IpAddress::V4([1, 2, 3, 4]);
    assert_eq!(r.order(&ts, "weighted", &ip, 1), vec!["a:1", "b:1"]);
    assert_eq!(r.order(&ts, "weighted", &ip, 1), vec!["a:1", "b:1"]);
    assert_eq!(r.order(&ts, "least_conn", &ip, 1), vec!["b:1", "a:1"]);
    assert_eq!(r.order(&ts, "weighted", &ip, 1), vec!["a:1", "b:1"]);
    // another forward has its own counter
    assert_eq!(r.order(&ts, "weighted", &ip, 2), vec!["a:1", "b:1"]);
    assert_eq!(r.order(&vec![target("only", 1)], "weighted", &ip, 3), vec!["only"]);
    assert!(r.order(&vec![target("", 1)], "weighted", &ip, 3).is_empty());
}

fn header(remaining: Vec<Hop>, targets: Vec<TargetEndpoint>, target: &str, udp: &str) -> TunnelHeader {
    TunnelHeader {
        remaining_hops: remaining,
        target: target.to_string(),
        client_ip: "1.2.3.4".to_string(),
        forward_id: 1,
        hop_index: 0,
        targets,
        target_strategy: "weighted".to_string(),
        udp_src_addr: udp.to_string(),
        link_encryption: "tls".to_string(),
    }
}

#[test]
fn header_targets() {
    let h = header(vec![], vec![], " legacy:1 ", "");
    let ts = effective_targets(&h);
    assert_eq!(ts.len(), 1);
    assert_eq!((ts[0].addr.as_str(), ts[0].weight), ("legacy:1", 1));
    assert!(effective_targets(&header(vec![], vec![], "  ", "")).is_empty());
}

#[test]
fn tunnel_routes() {
    let mut r = TargetRouter::new();
    let ip = ip_or_unspecified("1.2.3.4");
    match tunnel_route(&mut r, &header(vec![hop(&["n"])], vec![target("t:1", 1)], "", ""), &ip) {
        Ok(TunnelRoute::Relay(ts)) => assert_eq!(ts.len(), 1),
        _ => panic!("expected a relay"),
    }
    match tunnel_route(&mut r, &header(vec![], vec![target("t:1", 1), target("u:1", 1)], "", ""), &ip) {
        Ok(TunnelRoute::ExitTcp(v)) => assert_eq!(v, vec!["t:1", "u:1"]),
        _ => panic!("expected a TCP exit"),
    }
    match tunnel_route(&mut r, &header(vec![], vec![target("t:1", 1)], "", "9.9.9.9:5"), &ip) {
        Ok(TunnelRoute::ExitUdp(t)) => assert_eq!(t, "t:1"),
        _ => panic!("expected a UDP exit"),
    }
    assert!(matches!(tunnel_route(&mut r, &header(vec![], vec![], "", ""), &ip), Err(TunnelError::NoTargets)));
    assert!(matches!(
        tunnel_route(&mut r, &header(vec![], vec![target(" ", 1)], "", "9.9.9.9:5"), &ip),
        Err(TunnelError::NoUsableUdpTarget)
    ));
}

#[test]
fn client_ip_fallback() {
    assert_eq!(ip_or_unspecified("garbage").octets(), vec![0, 0, 0, 0]);
    assert_eq!(ip_or_unspecified("10.0.0.9").octets(), vec![10, 0, 0, 9]);
}

#[test]
fn forward_plans() {
    let r = rule(1, "tcp+udp", vec![hop(&["a"])], vec![target("t:1", 1)]);
    let p = plan_forward(&r, "a").unwrap();
    assert_eq!(p.port, 10000);
    assert_eq!(p.target_strategy, "weighted");
    assert!(matches!(p.tcp, Some(Route::SingleHop)));
    assert!(matches!(p.udp, Some(Route::SingleHop)));
    let r2 = rule(2, "udp", vec![hop(&["a"]), hop(&["b"])], vec![target("t:1", 1)]);
    let p2 = plan_forward(&r2, "a").unwrap();
    assert!(p2.tcp.is_none());
    assert!(matches!(p2.udp, Some(Route::MultiHop)));
    let r3 = rule(3, "", vec![hop(&["a"])], vec![target("t:1", 1)]);
    assert!(matches!(plan_forward(&r3, "a").unwrap().tcp, Some(Route::SingleHop)));
    assert!(plan_forward(&r, "b").is_none());
    assert!(plan_forward(&rule(4, "tcp", vec![hop(&["a"])], vec![]), "a").is_none());
}

#[test]
fn bind_reports() {
    let ok = bind_status(1, 80, &"tcp".to_string(), &vec![Ok(()), Ok(())]);
    assert!(ok.ok && ok.error.is_empty());
    let bad = bind_status(1, 80, &"tcp+udp".to_string(), &vec![Ok(()), Err("udp: in use".to_string()), Err("x".to_string())]);
    assert!(!bad.ok);
    assert_eq!(bad.error, "udp: in use");
    assert_eq!((bad.forward_id, bad.port), (1, 80));
}

#[test]
fn rule_set_changes() {
    let rules = vec![rule(1, "tcp", vec![hop(&["a"])], vec![target("t", 1)])];
    let mut gone = vanished(&vec![1, 2, 3], &rules);
    gone.sort();
    assert_eq!(gone, vec![2, 3]);
    let r = &rules[0];
    assert!(matches!(decide(r, None, "b"), Step::Stop));
    assert!(matches!(decide(r, None, "a"), Step::Start));
    assert!(matches!(decide(r, Some((r, true)), "a"), Step::Keep));
    assert!(matches!(decide(r, Some((r, false)), "a"), Step::Start));
    let mut changed = rule(1, "tcp", vec![hop(&["a"])], vec![target("t", 1)]);
    changed.listen_port = 10001;
    assert!(matches!(decide(&changed, Some((r, true)), "a"), Step::Start));
}

#[test]
fn node_tables() {
    let ns = vec![
        NodeAddr { id: "a".to_string(), addr: "1.1.1.1:7444".to_string(), health: "healthy".to_string(), latency_ms: 3 },
        NodeAddr { id: "b".to_string(), addr: "2.2.2.2:7444".to_string(), health: "unhealthy".to_string(), latency_ms: 0 },
        NodeAddr { id: "a".to_string(), addr: "3.3.3.3:7444".to_string(), health: "healthy".to_string(), latency_ms: 4 },
    ];
    let t = build_nodes(&ns);
    assert_eq!(t.len(), 3);
    assert_eq!(addr_of(&t, "a"), Some("3.3.3.3:7444".to_string()));
    assert_eq!(addr_of(&t, "z"), None);
    let v = node_view(&t);
    assert_eq!(v.health.len(), 3);
    assert_eq!(v.latency[0], ("a".to_string(), 3));
}

#[test]
fn timers() {
    assert_eq!(probe_timeout_ms(0), 2000);
    assert_eq!(probe_timeout_ms(500), 500);
    assert_eq!(probe_timeout_ms(60_000), 10_000);
    assert!(udp_idle(0, 60_001));
    assert!(!udp_idle(0, 60_000));
    let j = renew_jitter_secs("node-1");
    assert!((3600..3660).contains(&j));
    // "a" is byte 97: 97 % 120 = 97, 97 - 60 = 37
    assert_eq!(renew_jitter_secs("a"), 3637);
    assert_eq!(renew_jitter_secs(""), 3600);
    let day = 86_400_000i64;
    assert!(renew_due(10 * day, 0));
    assert!(!renew_due(40 * day, 0));
    assert!(!renew_due(0, 0));
    assert!(renew_due(31 * day - 1, 0));
}

#[test]
fn sessions_lifecycle() {
    let mut t = SessionTable::new();
    let id = t.create_at("s1".to_string(), 7, "n", "1.2.3.4".to_string(), 5000, "t:1".to_string(), vec![], "tcp", 100);
    assert_eq!(id, "s1");
    t.create_at("s2".to_string(), 7, "n", "1.2.3.4".to_string(), 5001, "t:1".to_string(), vec![], "udp", 100);
    assert_eq!(t.active_count(), 2);
    t.add_in("s1", 10);
    t.add_out("s1", 20);
    t.close_at("s1", "eof", 1_000);
    t.close_at("s1", "again", 2_000);
    assert_eq!(t.active_count(), 1);
    let ev = t.snapshot_and_gc_at(1_000 + CLOSE_GRACE_MS);
    assert_eq!(ev.len(), 2);
    assert_eq!((ev[0].bytes_in, ev[0].bytes_out, ev[0].closed_at_ms), (10, 20, 1_000));
    assert_eq!(ev[0].close_reason, "eof");
    // still within the grace period: kept
    assert_eq!(t.snapshot_and_gc_at(1_000 + CLOSE_GRACE_MS).len(), 2);
    // past it: dropped; the open one stays
    let ev = t.snapshot_and_gc_at(1_001 + CLOSE_GRACE_MS);
    assert_eq!(ev.len(), 2);
    let ev = t.snapshot_and_gc_at(1_001 + CLOSE_GRACE_MS);
    assert_eq!(ev.len(), 1);
    assert_eq!(ev[0].id, "s2");
}

#[test]
fn session_state_close_once() {
    let mut s = SessionState {
        id: "x".to_string(),
        forward_id: 1,
        entry_node_id: "n".to_string(),
        client_ip: "c".to_string(),
        client_port: 1,
        target_addr: "t".to_string(),
        hops_path: vec![],
        protocol: "tcp".to_string(),
        opened_at_ms: 0,
        bytes_in: 0,
        bytes_out: 0,
        closed_at_ms: 0,
        close_reason: String::new(),
    };
    s.close_at("first", 5);
    s.close_at("second", 9);
    assert_eq!((s.closed_at_ms, s.close_reason.as_str()), (5, "first"));
    let e = s.to_event();
    assert_eq!(e.closed_at_ms, 5);
}

#[test]
fn session_ids_are_random_hex() {
    let mut t = SessionTable::new();
    let a = t.create(1, "n", "c".to_string(), 1, "t".to_string(), vec![], "tcp");
    let b = t.create(1, "n", "c".to_string(), 1, "t".to_string(), vec![], "tcp");
    assert_eq!(a.len(), 32);
    assert!(a.chars().all(|c| c.is_ascii_hexdigit() && !c.is_ascii_uppercase()));
    assert_ne!(a, b);
}

#[test]
fn session_events_carry_what_it_was_opened_with() {
    let mut t = SessionTable::new();
    t.create_at(
        "s9".to_string(),
        42,
        "entry-a",
        "10.0.0.7".to_string(),
        40000,
        "9.9.9.9:53".to_string(),
        vec!["entry-a".to_string(), "exit-b".to_string()],
        "udp",
        1_234,
    );
    t.add_in("s9", 3);
    t.close_at("s9", "idle", 2_000);
    let ev = t.snapshot_and_gc_at(2_000);
    assert_eq!(ev.len(), 1);
    let e = &ev[0];
    assert_eq!(e.id, "s9");
    assert_eq!(e.forward_id, 42);
    assert_eq!(e.entry_node_id, "entry-a");
    assert_eq!(e.client_ip, "10.0.0.7");
    assert_eq!(e.client_port, 40000);
    assert_eq!(e.target_addr, "9.9.9.9:53");
    assert_eq!(e.hops_path, vec!["entry-a".to_string(), "exit-b".to_string()]);
    assert_eq!(e.protocol, "udp");
    assert_eq!(e.opened_at_ms, 1_234);
    assert_eq!((e.bytes_in, e.bytes_out), (3, 0));
    assert_eq!((e.closed_at_ms, e.close_reason.as_str()), (2_000, "idle"));
}

#[test]
fn session_created_again_under_same_id_replaces() {
    let mut t = SessionTable::new();
    t.create_at("dup".to_string(), 1, "n", "1.1.1.1".to_string(), 1, "a:1".to_string(), vec![], "tcp", 10);
    t.add_in("dup", 5);
    t.create_at("dup".to_string(), 2, "n", "2.2.2.2".to_string(), 2, "b:2".to_string(), vec![], "udp", 20);
    let ev = t.snapshot_and_gc_at(30);
    assert_eq!(ev.len(), 1);
    assert_eq!((ev[0].forward_id, ev[0].client_ip.as_str(), ev[0].bytes_in, ev[0].opened_at_ms), (2, "2.2.2.2", 0, 20));
}

#[test]
fn probe_replies() {
    let r = probe_reply(ConnectOutcome::Connected { elapsed_ms: 17 }, 2000);
    assert_eq!((r.ok, r.latency_ms, r.error.as_str()), (true, 17, ""));
    let r = probe_reply(ConnectOutcome::Failed("connection refused".to_string()), 2000);
    assert_eq!((r.ok, r.latency_ms, r.error.as_str()), (false, 0, "connection refused"));
    let r = probe_reply(ConnectOutcome::TimedOut, probe_timeout_ms(0));
    assert_eq!((r.ok, r.latency_ms, r.error.as_str()), (false, 0, "timeout 2000ms"));
    let r = probe_reply(ConnectOutcome::TimedOut, probe_timeout_ms(50_000));
    assert_eq!(r.error, "timeout 10000ms");
}
