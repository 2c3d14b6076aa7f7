use iris::calendar::{civil_from_days, compute_next_reset_at_ms, days_from_civil};
use iris::model::{parse_protocol, ForwardCreate, Hop, HopNode, TargetEndpoint};
use iris::rules::{
    admit_forward, Refusal,
    admin_limits, customer_limits, edit_decision, entry_ids, kept_limits, Limits, normalize_link_encryption, normalize_quota_reset, nz_opt,
    port_conflict, quota_exceeded, quota_reset_plan, retention_cutoff, validate_forward, ForwardError, PortUser,
};

fn hop(ids: &[(&str, u32)]) -> Hop {
    Hop {
        strategy: "weighted".to_string(),
        nodes: ids.iter().map(|(id, w)| HopNode { id: id.to_string(), weight: *w }).collect(),
    }
}

fn target(a: &str, w: u32) -> TargetEndpoint {
    TargetEndpoint { addr: a.to_string(), weight: w }
}

fn req() -> ForwardCreate {
    ForwardCreate {
        name: "f".to_string(),
        listen_port: 10000,
        protocol: "tcp".to_string(),
        hops: Some(vec![hop(&[("a", 1)]), hop(&[("b", 5000)])]),
        path: None,
        target: None,
        targets: Some(vec![target("1.2.3.4:80", 0)]),
        target_strategy: "weighted".to_string(),
        quota_in_bytes: None,
        quota_out_bytes: None,
        rate_in_bps: None,
        rate_out_bps: None,
        quota_reset: None,
        link_encryption: None,
    }
}

#[test]
fn protocols_normalised() {
    assert_eq!(parse_protocol(" TCP "), Some("tcp".to_string()));
    assert_eq!(parse_protocol("udp"), Some("udp".to_string()));
    assert_eq!(parse_protocol("tcp+udp"), Some("tcp+udp".to_string()));
    assert_eq!(parse_protocol("tcp,udp"), Some("tcp+udp".to_string()));
    assert_eq!(parse_protocol("UDP+TCP"), Some("tcp+udp".to_string()));
    assert_eq!(parse_protocol("Both"), Some("tcp+udp".to_string()));
    assert_eq!(parse_protocol("udp,tcp"), None);
    assert_eq!(parse_protocol("tcp / udp"), None);
    assert_eq!(parse_protocol("tcp+icmp"), None);
    assert_eq!(parse_protocol("icmp"), None);
    assert_eq!(parse_protocol("sctp"), None);
    assert_eq!(parse_protocol(""), None);
}

#[test]
fn legacy_path_and_target_normalised() {
    let mut f = req();
    f.hops = None;
    f.path = Some(vec!["a".to_string(), "b".to_string()]);
    f.targets = None;
    f.target = Some("  9.9.9.9:53 ".to_string());
    let hops = f.normalized_hops();
    assert_eq!(hops.len(), 2);
    assert_eq!(hops[1].strategy, "weighted");
    assert_eq!(hops[1].nodes[0].id, "b");
    assert_eq!(hops[1].nodes[0].weight, 1);
    let ts = f.normalized_targets();
    assert_eq!(ts.len(), 1);
    assert_eq!(ts[0].addr, "9.9.9.9:53");
    assert_eq!(ts[0].weight, 1);
    f.target = Some("   ".to_string());
    assert!(f.normalized_targets().is_empty());
}

#[test]
fn valid_forward_clamps_weights() {
    let v = validate_forward(&req()).ok().unwrap();
    assert_eq!(v.protocol, "tcp");
    assert_eq!(v.hops[1].nodes[0].weight, 1000);
    assert_eq!(v.targets[0].weight, 1);
}

#[test]
fn each_validation_error() {
    let mut f = req();
    f.protocol = "icmp".to_string();
    assert!(matches!(validate_forward(&f), Err(ForwardError::BadProtocol)));
    let mut f = req();
    f.hops = Some(vec![hop(&[("a", 1)]), hop(&[])]);
    assert!(matches!(validate_forward(&f), Err(ForwardError::EmptyHops)));
    let mut f = req();
    f.listen_port = 0;
    assert!(matches!(validate_forward(&f), Err(ForwardError::BadPort)));
    let mut f = req();
    f.listen_port = 65536;
    assert!(matches!(validate_forward(&f), Err(ForwardError::BadPort)));
    let mut f = req();
    f.targets = Some(vec![]);
    assert!(matches!(validate_forward(&f), Err(ForwardError::NoTargets)));
    let mut f = req();
    f.targets = Some(vec![target(" ", 1)]);
    assert!(matches!(validate_forward(&f), Err(ForwardError::BlankTarget)));
    let mut f = req();
    f.hops = Some(vec![hop(&[("a", 1), ("c", 1)]), hop(&[("b", 1)]), hop(&[("c", 1)])]);
    match validate_forward(&f) {
        Err(ForwardError::DuplicateNode(id)) => {
            assert_eq!(id, "c");
            assert_eq!(ForwardError::DuplicateNode(id).message(), "节点 c 在路径中重复（循环路径）");
            assert_eq!(ForwardError::BadPort.message(), "listen_port 必须在 1-65535");
        },
        _ => panic!("expected a loop"),
    }
}

#[test]
fn entry_nodes_of_a_path() {
    assert!(entry_ids(&vec![]).is_empty());
    assert_eq!(entry_ids(&vec![hop(&[("a", 1), ("b", 1)]), hop(&[("c", 1)])]), vec!["a", "b"]);
}

#[test]
fn optional_settings() {
    assert_eq!(nz_opt(Some(5)), Some(5));
    assert_eq!(nz_opt(Some(0)), None);
    assert_eq!(nz_opt(Some(-1)), None);
    assert_eq!(nz_opt(None), None);
    assert_eq!(normalize_link_encryption(Some(" PLAIN ")), "plain");
    assert_eq!(normalize_link_encryption(Some("xyz")), "tls");
    assert_eq!(normalize_link_encryption(None), "tls");
    assert_eq!(normalize_quota_reset(Some(" daily ")), Some("daily".to_string()));
    assert_eq!(normalize_quota_reset(Some("monthly")), Some("monthly".to_string()));
    assert_eq!(normalize_quota_reset(Some("none")), None);
    assert_eq!(normalize_quota_reset(Some("weekly")), None);
    assert_eq!(normalize_quota_reset(Some("  ")), None);
}

#[test]
fn limits_of_admins_and_customers() {
    let mut f = req();
    f.quota_in_bytes = Some(100);
    f.quota_out_bytes = Some(0);
    f.rate_in_bps = Some(-5);
    f.rate_out_bps = Some(2048);
    f.quota_reset = Some("daily".to_string());
    f.link_encryption = Some("plain".to_string());
    let l = admin_limits(&f, 1_700_000_000_123);
    assert_eq!(l.quota_in_bytes, Some(100));
    assert_eq!(l.quota_out_bytes, None);
    assert_eq!(l.rate_in_bps, None);
    assert_eq!(l.rate_out_bps, Some(2048));
    assert_eq!(l.quota_reset, Some("daily".to_string()));
    assert_eq!(l.quota_reset_at_ms, Some(1_700_006_400_000));
    assert_eq!(l.link_encryption, "plain");
    let c = customer_limits();
    assert_eq!(c.quota_in_bytes, None);
    assert_eq!(c.link_encryption, "tls");
}

#[test]
fn quota_checks() {
    assert!(quota_exceeded(100, 0, Some(100), None, 1, None));
    assert!(quota_exceeded(0, 7, None, Some(5), 1, None));
    assert!(!quota_exceeded(99, 0, Some(100), None, 1, None));
    assert!(!quota_exceeded(100, 0, Some(100), None, 0, None));
    assert!(!quota_exceeded(100, 0, Some(100), None, 1, Some(1)));
    assert!(!quota_exceeded(100, 0, Some(0), None, 1, None));
}

#[test]
fn quota_reset_plans() {
    assert_eq!(quota_reset_plan(Some("daily"), Some(5), 86_400_000), (172_800_000, true));
    assert_eq!(quota_reset_plan(Some("none"), None, 42), (42, false));
}

#[test]
fn retention() {
    assert_eq!(retention_cutoff(1_000_000_000, 0), None);
    assert_eq!(retention_cutoff(1_000_000_000, -3), None);
    assert_eq!(retention_cutoff(1_000_000_000, 2), Some(1_000_000_000 - 172_800_000));
}

fn user(id: i64, proto: &str, entries: &[&str]) -> PortUser {
    PortUser {
        id,
        name: format!("f{id}"),
        protocol: proto.to_string(),
        entry_nodes: entries.iter().map(|s| s.to_string()).collect(),
    }
}

#[test]
fn port_conflicts() {
    let users = vec![user(1, "udp", &["a"]), user(2, "tcp", &["x", "b"])];
    let c = port_conflict(443, "tcp", &vec!["b".to_string(), "c".to_string()], None, &users).unwrap();
    assert_eq!(c.id, 2);
    assert_eq!(c.port, 443);
    assert!(port_conflict(443, "tcp", &vec!["a".to_string()], None, &users).is_none());
    assert!(port_conflict(443, "tcp", &vec!["b".to_string()], Some(2), &users).is_none());
    assert!(port_conflict(443, "udp", &vec!["a".to_string()], None, &users).is_some());
    assert!(port_conflict(443, "tcp", &vec![], None, &users).is_none());
    let c = port_conflict(443, "tcp+udp", &vec!["b".to_string()], None, &vec![user(2, "tcp", &["b"])]).unwrap();
    assert_eq!(c.message(), "端口 443 冲突：转发 'f2' (id=2) 已在节点 [b] 使用 tcp 协议");
}

#[test]
fn civil_dates() {
    assert_eq!(civil_from_days(0), (1970, 1, 1));
    assert_eq!(civil_from_days(19_723), (2024, 1, 1));
    assert_eq!(civil_from_days(19_782), (2024, 2, 29));
    assert_eq!(civil_from_days(-1), (1969, 12, 31));
    assert_eq!(days_from_civil(2024, 3, 1), 19_783);
    assert_eq!(days_from_civil(1970, 1, 1), 0);
    for z in [-1_000_000i64, -1, 0, 59, 60, 10_956, 11_016, 2_932_896] {
        let (y, m, d) = civil_from_days(z);
        assert_eq!(days_from_civil(y, m, d), z);
    }
}

#[test]
fn next_resets() {
    // 2024-01-31 12:00 UTC
    let now = 1_706_702_400_000i64;
    assert_eq!(compute_next_reset_at_ms(Some("daily"), now), Some(1_706_745_600_000));
    assert_eq!(compute_next_reset_at_ms(Some("monthly"), now), Some(1_706_745_600_000));
    // 2024-12-15 -> 2025-01-01
    assert_eq!(compute_next_reset_at_ms(Some("monthly"), 1_734_264_000_000), Some(1_735_689_600_000));
    assert_eq!(compute_next_reset_at_ms(Some("none"), now), None);
    assert_eq!(compute_next_reset_at_ms(Some(""), now), None);
    assert_eq!(compute_next_reset_at_ms(None, now), None);
    assert_eq!(compute_next_reset_at_ms(Some("yearly"), now), None);
}

fn limits(q: i64, enc: &str) -> Limits {
    Limits {
        quota_in_bytes: Some(q),
        quota_out_bytes: None,
        rate_in_bps: Some(q * 2),
        rate_out_bps: None,
        quota_reset: Some("daily".to_string()),
        quota_reset_at_ms: Some(99),
        link_encryption: enc.to_string(),
    }
}

#[test]
fn who_may_edit_a_forward() {
    assert_eq!(edit_decision(false, 5, None), Err(404));
    assert_eq!(edit_decision(true, 5, None), Err(404));
    assert_eq!(edit_decision(false, 5, Some(6)), Err(403));
    assert_eq!(edit_decision(false, 5, Some(5)), Ok(()));
    assert_eq!(edit_decision(true, 5, Some(6)), Ok(()));
}

#[test]
fn customers_keep_stored_limits() {
    let k = kept_limits(false, limits(100, "tls"), limits(0, "plain"));
    assert_eq!((k.quota_in_bytes, k.rate_in_bps, k.link_encryption.as_str()), (Some(100), Some(200), "tls"));
    let k = kept_limits(true, limits(100, "tls"), limits(7, "plain"));
    assert_eq!((k.quota_in_bytes, k.rate_in_bps, k.link_encryption.as_str()), (Some(7), Some(14), "plain"));
}

#[test]
fn protocol_spelling_ignores_case() {
    for (a, b) in [("tcp", "TCP"), ("Both", "bOTH"), ("udp+tcp", "UDP+Tcp"), ("x", "X")] {
        assert_eq!(parse_protocol(a), parse_protocol(b));
    }
    for c in ["tcp", "udp", "tcp+udp"] {
        assert_eq!(parse_protocol(c), Some(c.to_string()));
    }
}

#[test]
fn refused_before_writing_in_order() {
    let users = vec![user(7, "tcp", &["a"])];
    // access first
    assert!(matches!(admit_forward(Err(403), &req(), None, &users), Err(Refusal::Denied(403))));
    // then the request
    let mut bad = req();
    bad.listen_port = 0;
    assert!(matches!(admit_forward(Ok(()), &bad, None, &users), Err(Refusal::Invalid(ForwardError::BadPort))));
    // then the port on the entry node
    match admit_forward(Ok(()), &req(), None, &users) {
        Err(Refusal::PortTaken(c)) => assert_eq!(c.id, 7),
        _ => panic!("expected a port conflict"),
    }
    // editing forward 7 itself is no conflict
    let v = match admit_forward(Ok(()), &req(), Some(7), &users) {
        Ok(v) => v,
        Err(_) => panic!("expected the forward to be admitted"),
    };
    assert_eq!(v.protocol, "tcp");
    assert_eq!(v.hops[1].nodes[0].weight, 1000);
}
