use iris::api::{
    data_addr_hint, edge_plan, enrollment_expiry, esc, is_disallowed_ip, register_input_ok, test_targets,
    SseTickets, TestError, TestRequest, TicketError, ENROLL_TTL_MS,
};
use iris::api::{target_verdict, TargetRefused};
use iris::auth::{hash_password, verify_password, Claims, RateLimiter};
use iris::calendar::days_from_civil;
use iris::common::{cert_not_after_ms, now_ms, version_string, CertPaths};
use iris::control::{
    allowlist_fallback, entry_forward_ids, identity_matches, node_addr, node_id_from_cn, probe_update,
    session_record, fail_threshold_setting, probe_interval_setting, ForwardPath, Health, ListenerReport, ListenerStates, NodeHealth, TrafficLast, TrafficStat,
};
use iris::model::{Hop, HopNode, TargetEndpoint};
use iris::net::IpAddress;
use iris::session::SessionEvent;

fn hop(ids: &[&str]) -> Hop {
    Hop {
        strategy: "weighted".to_string(),
        nodes: ids.iter().map(|id| HopNode { id: id.to_string(), weight: 1 }).collect(),
    }
}

fn target(a: &str) -> TargetEndpoint {
    TargetEndpoint { addr: a.to_string(), weight: 1 }
}

#[test]
fn tickets_serve_once() {
    let mut t = SseTickets::new();
    let r = t.issue_at("abc".to_string(), 7, 1_000);
    assert_eq!(r.ticket, "abc");
    assert_eq!(r.expires_in, 60);
    assert!(t.consume_at("abc", 7, 2_000).is_ok());
    assert!(matches!(t.consume_at("abc", 7, 2_000), Err(TicketError::Invalid)));
}

#[test]
fn ticket_errors() {
    let mut t = SseTickets::new();
    assert!(matches!(t.consume_at("nope", 1, 0), Err(TicketError::Invalid)));
    t.issue_at("a".to_string(), 1, 0);
    assert!(matches!(t.consume_at("a", 1, 60_001), Err(TicketError::Expired)));
    t.issue_at("b".to_string(), 1, 0);
    assert!(matches!(t.consume_at("b", 2, 60_000), Err(TicketError::WrongForward)));
    // a ticket is gone even after a refused use
    assert!(matches!(t.consume_at("b", 1, 0), Err(TicketError::Invalid)));
}

#[test]
fn register_input_lengths() {
    assert!(register_input_ok(" bob ", "secret"));
    assert!(!register_input_ok(" bo ", "secret"));
    assert!(!register_input_ok("bob", "short"));
    assert!(register_input_ok("张", "secret"));
}

#[test]
fn link_test_targets() {
    let req = TestRequest { hops: vec![hop(&["a"])], targets: None, target: Some(" 1.1.1.1:80 ".to_string()) };
    let ts = test_targets(&req).ok().unwrap();
    assert_eq!(ts.len(), 1);
    assert_eq!(ts[0].addr, "1.1.1.1:80");
    let req = TestRequest { hops: vec![], targets: None, target: Some("x".to_string()) };
    assert!(matches!(test_targets(&req), Err(TestError::EmptyHops)));
    let req = TestRequest { hops: vec![hop(&["a"])], targets: None, target: None };
    assert!(matches!(test_targets(&req), Err(TestError::NoTargets)));
    let req = TestRequest { hops: vec![hop(&["a"])], targets: Some(vec![target(" ")]), target: None };
    assert!(matches!(test_targets(&req), Err(TestError::BlankTarget)));
    assert_eq!(TestError::NoTargets.message(), "targets 不能为空");
}

#[test]
fn link_test_edges() {
    let hops = vec![hop(&["a", "b"]), hop(&["c", "x"])];
    let nodes = vec![("c".to_string(), "10.0.0.3:7444".to_string())];
    let edges = edge_plan(&hops, &vec![target("1.1.1.1:80")], &nodes);
    let want = vec![
        ("a".to_string(), Some("c".to_string()), "10.0.0.3:7444".to_string()),
        ("b".to_string(), Some("c".to_string()), "10.0.0.3:7444".to_string()),
        ("c".to_string(), None, "1.1.1.1:80".to_string()),
        ("x".to_string(), None, "1.1.1.1:80".to_string()),
    ];
    assert_eq!(edges, want);
}

#[test]
fn disallowed_targets() {
    assert!(is_disallowed_ip(&IpAddress::V4([127, 0, 0, 1])));
    assert!(is_disallowed_ip(&IpAddress::V4([192, 168, 1, 1])));
    assert!(is_disallowed_ip(&IpAddress::V4([172, 20, 0, 1])));
    assert!(!is_disallowed_ip(&IpAddress::V4([172, 32, 0, 1])));
    assert!(!is_disallowed_ip(&IpAddress::V4([8, 8, 8, 8])));
    let mut mapped = [0u8; 16];
    mapped[10] = 0xff;
    mapped[11] = 0xff;
    mapped[12] = 10;
    assert!(is_disallowed_ip(&IpAddress::V6(mapped)));
    let mut ula = [0u8; 16];
    ula[0] = 0xfd;
    assert!(is_disallowed_ip(&IpAddress::V6(ula)));
    let mut global = [0u8; 16];
    global[0] = 0x20;
    global[1] = 0x01;
    assert!(!is_disallowed_ip(&IpAddress::V6(global)));
}

#[test]
fn small_texts() {
    assert_eq!(esc("a\"b\\c\nd"), "a\\\"b\\\\c\\nd");
    assert_eq!(data_addr_hint(Some("1.2.3.4:9000")), "0.0.0.0:9000");
    assert_eq!(data_addr_hint(Some("noport")), "0.0.0.0:noport");
    assert_eq!(data_addr_hint(None), "0.0.0.0:7444");
    assert_eq!(enrollment_expiry(5), 5 + ENROLL_TTL_MS);
}

#[test]
fn admin_claims() {
    let c = Claims { sub: 1, username: "u".to_string(), role: "admin".to_string(), exp: 0 };
    assert!(c.is_admin());
    let c = Claims { sub: 1, username: "u".to_string(), role: "customer".to_string(), exp: 0 };
    assert!(!c.is_admin());
}

#[test]
fn passwords_round_trip() {
    let h = hash_password("hunter22").ok().unwrap();
    assert!(verify_password("hunter22", &h));
    assert!(!verify_password("hunter23", &h));
    assert!(!verify_password("hunter22", "not a hash"));
}

#[test]
fn sliding_window_limit() {
    let mut rl = RateLimiter::new(1_000, 2);
    assert!(rl.check_at("ip", 0));
    assert!(rl.check_at("ip", 500));
    assert!(!rl.check_at("ip", 900));
    assert!(rl.check_at("other", 900));
    // the hit at 0 leaves the window after 1000 ms
    assert!(rl.check_at("ip", 1_001));
    assert!(!rl.check_at("ip", 1_400));
}

#[test]
fn cert_paths_and_version() {
    let p = CertPaths::under("/etc/iris");
    assert_eq!(p.ca, "/etc/iris/ca.pem");
    assert_eq!(p.ca_key, "/etc/iris/ca-key.pem");
    assert_eq!(p.client_key, "/etc/iris/client-key.pem");
    assert_eq!(p.ctrl_files().len(), 5);
    assert!(!CertPaths::under("/nonexistent-dir-for-tests").ctrl_exists());
    assert_eq!(version_string(), "0.1.0-unknown");
    assert!(now_ms() > 0);
}

#[test]
fn certificate_expiry() {
    let cert = rcgen::generate_simple_self_signed(vec!["node".to_string()]).unwrap();
    let pem = cert.cert.pem();
    assert_eq!(cert_not_after_ms(pem.as_bytes()), Ok(days_from_civil(4096, 1, 1) * 86_400_000));
    assert!(cert_not_after_ms(b"garbage").is_err());
}

#[test]
fn node_identity() {
    assert_eq!(node_id_from_cn("iris-node-abc"), Some("abc".to_string()));
    assert_eq!(node_id_from_cn("zhuanfa-node-7"), Some("7".to_string()));
    assert_eq!(node_id_from_cn("iris-master"), None);
    assert!(identity_matches("abc", "abc"));
    assert!(!identity_matches("", ""));
    assert!(!identity_matches("abc", "abd"));
}

#[test]
fn entry_forwards() {
    let fs = vec![
        ForwardPath { id: 1, hops: vec![hop(&["a", "b"]), hop(&["c"])] },
        ForwardPath { id: 2, hops: vec![hop(&["c"])] },
        ForwardPath { id: 3, hops: vec![] },
    ];
    let mut ids = entry_forward_ids(&fs, "c");
    ids.sort();
    assert_eq!(ids, vec![2]);
    assert_eq!(entry_forward_ids(&fs, "b"), vec![1]);
    assert_eq!(allowlist_fallback(Some((vec![4, 5], 59_999))), vec![4, 5]);
    assert!(allowlist_fallback(Some((vec![4, 5], 60_000))).is_empty());
    assert!(allowlist_fallback(None).is_empty());
}

fn report(fid: i64, ok: bool, err: &str) -> ListenerReport {
    ListenerReport { forward_id: fid, ok, error: err.to_string(), port: 80, protocol: "tcp".to_string() }
}

#[test]
fn listener_states_keep_latest_allowed() {
    let mut s = ListenerStates::new();
    s.apply_report("n1", &vec![report(1, false, "bind"), report(1, true, ""), report(9, true, "")], &vec![1], 100);
    s.apply_report("n2", &vec![report(1, false, "in use")], &vec![1], 200);
    let st = s.statuses(1, &vec!["n1".to_string(), "n2".to_string(), "n3".to_string()]);
    assert_eq!(st.len(), 2);
    assert_eq!((st[0].node_id.as_str(), st[0].ok, st[0].updated_at), ("n1", true, 100));
    assert_eq!((st[1].node_id.as_str(), st[1].ok, st[1].error.as_str()), ("n2", false, "in use"));
    assert!(s.statuses(9, &vec!["n1".to_string()]).is_empty());
}

#[test]
fn traffic_deltas() {
    let mut t = TrafficLast::new();
    let st = |f: i64, i: u64, o: u64| TrafficStat { forward_id: f, bytes_in: i, bytes_out: o };
    assert_eq!(t.apply("n", &vec![st(1, 100, 50), st(2, 9, 9)], &vec![1]), vec![(1, 100, 50)]);
    assert_eq!(t.apply("n", &vec![st(1, 150, 80)], &vec![1]), vec![(1, 50, 30)]);
    // a node restart starts the counts over
    assert_eq!(t.apply("n", &vec![st(1, 10, 5)], &vec![1]), vec![(1, 10, 5)]);
    assert_eq!(t.apply("m", &vec![st(1, 7, 7)], &vec![1]), vec![(1, 7, 7)]);
}

#[test]
fn session_records() {
    let ev = SessionEvent {
        id: "s".to_string(),
        forward_id: 3,
        entry_node_id: "x".to_string(),
        client_ip: "1.2.3.4".to_string(),
        client_port: 5555,
        target_addr: "t:1".to_string(),
        hops_path: vec!["a".to_string()],
        protocol: "tcp".to_string(),
        opened_at_ms: 10,
        closed_at_ms: 0,
        bytes_in: 1,
        bytes_out: 2,
        close_reason: String::new(),
    };
    let r = session_record(&ev, "n1", &vec![3]).unwrap();
    assert_eq!(r.entry_node_id, "n1");
    assert_eq!(r.closed_at_ms, None);
    assert_eq!(r.close_reason, None);
    assert_eq!(r.client_port, 5555);
    assert!(session_record(&ev, "n1", &vec![4]).is_none());
}

fn healthy() -> NodeHealth {
    NodeHealth {
        health: Health::Healthy,
        latency_ms: Some(5),
        fail_count: 0,
        probe_total: 0,
        probe_ok: 0,
        fail_events: 0,
        down_since: None,
        downtime_ms: 0,
    }
}

#[test]
fn health_after_probes() {
    let mut h = healthy();
    h = probe_update(&h, false, 0, 1_000, 3);
    h = probe_update(&h, false, 0, 2_000, 3);
    assert_eq!(h.health, Health::Healthy);
    h = probe_update(&h, false, 0, 3_000, 3);
    assert_eq!(h.health, Health::Unhealthy);
    assert_eq!((h.fail_events, h.down_since), (1, Some(3_000)));
    h = probe_update(&h, false, 0, 4_000, 3);
    assert_eq!(h.fail_events, 1);
    h = probe_update(&h, true, 12, 8_000, 3);
    assert_eq!(h.health, Health::Healthy);
    assert_eq!((h.latency_ms, h.downtime_ms, h.down_since), (Some(12), 5_000, None));
    assert_eq!((h.probe_total, h.probe_ok, h.fail_count), (5, 1, 0));
}

#[test]
fn node_addresses() {
    let n = node_addr("a".to_string(), "1.2.3.4:7444".to_string(), "healthy".to_string(), Some(12));
    assert_eq!(n.latency_ms, 12);
    let n = node_addr("a".to_string(), "x".to_string(), "unknown".to_string(), None);
    assert_eq!(n.latency_ms, 0);
}

#[test]
fn link_test_target_verdicts() {
    assert!(matches!(target_verdict(&vec![], false), Err(TargetRefused::Unresolved)));
    let public = IpAddress::V4([8, 8, 8, 8]);
    let private = IpAddress::V4([10, 0, 0, 1]);
    assert!(target_verdict(&vec![IpAddress::V4([8, 8, 8, 8])], false).is_ok());
    assert!(matches!(target_verdict(&vec![public, private], false), Err(TargetRefused::Disallowed(1))));
    assert!(target_verdict(&vec![IpAddress::V4([10, 0, 0, 1])], true).is_ok());
}

#[test]
fn idle_keys_kept_while_few_are_stored() {
    let mut rl = RateLimiter::new(100, 1);
    assert!(rl.check_at("a", 0));
    // long after a's window, with few keys stored, a's hit is still on record
    assert!(rl.check_at("b", 10_000));
    assert!(!rl.check_at("a", 50));
}

#[test]
fn unknown_node_stays_unknown_below_threshold() {
    let mut h = healthy();
    h.health = Health::from_text("unknown");
    assert_eq!(h.health, Health::Unknown);
    h = probe_update(&h, false, 0, 1_000, 2);
    assert_eq!((h.health, h.fail_count, h.fail_events), (Health::Unknown, 1, 0));
    h = probe_update(&h, false, 0, 2_000, 2);
    assert_eq!((h.health, h.fail_events, h.down_since), (Health::Unhealthy, 1, Some(2_000)));
    assert_eq!(h.health.text(), "unhealthy");
    assert_eq!(Health::from_text("healthy").text(), "healthy");
}

#[test]
fn settings_with_defaults() {
    assert_eq!(fail_threshold_setting(None), 2);
    assert_eq!(fail_threshold_setting(Some("5")), 5);
    assert_eq!(fail_threshold_setting(Some("-3")), -3);
    assert_eq!(fail_threshold_setting(Some("+4")), 4);
    assert_eq!(fail_threshold_setting(Some("-+4")), 2);
    assert_eq!(fail_threshold_setting(Some("x")), 2);
    assert_eq!(fail_threshold_setting(Some("-9223372036854775808")), i64::MIN);
    assert_eq!(fail_threshold_setting(Some("9223372036854775808")), 2);
    assert_eq!(probe_interval_setting(None), 15);
    assert_eq!(probe_interval_setting(Some("30")), 30);
    assert_eq!(probe_interval_setting(Some("-1")), 15);
}
