use iris::api::{invite_usable, page_window, transport_allowed, InviteError};
use iris::cli::parse_hops_dsl;
use iris::common::{cert_plan, node_cert_names};
use iris::records::InviteCode;

fn view(s: &str) -> Vec<(String, Vec<(String, u32)>)> {
    parse_hops_dsl(s)
        .into_iter()
        .map(|h| (h.strategy, h.nodes.into_iter().map(|n| (n.id, n.weight)).collect()))
        .collect()
}

#[test]
fn dsl_hops_and_weights() {
    assert_eq!(
        view("a:3,b | c @source_hash"),
        vec![
            ("weighted".to_string(), vec![("a".to_string(), 3), ("b".to_string(), 1)]),
            ("source_hash".to_string(), vec![("c".to_string(), 1)]),
        ]
    );
}

#[test]
fn dsl_documented_example() {
    assert_eq!(
        view("a | b1:3,b2:1@weighted | c1,c2@source_hash"),
        vec![
            ("weighted".to_string(), vec![("a".to_string(), 1)]),
            ("weighted".to_string(), vec![("b1".to_string(), 3), ("b2".to_string(), 1)]),
            ("source_hash".to_string(), vec![("c1".to_string(), 1), ("c2".to_string(), 1)]),
        ]
    );
}

#[test]
fn dsl_weights_clamped_and_defaulted() {
    assert_eq!(
        view("a:0, b:99999 ,c:x, :5, ,d:"),
        vec![(
            "weighted".to_string(),
            vec![("a".to_string(), 1), ("b".to_string(), 1000), ("c".to_string(), 1), ("d".to_string(), 1)]
        )]
    );
}

#[test]
fn dsl_empty_pieces_give_empty_hops() {
    assert_eq!(view(""), vec![("weighted".to_string(), vec![])]);
    assert_eq!(view("a||b").len(), 3);
    assert_eq!(view("@latency"), vec![("latency".to_string(), vec![])]);
}

fn invite(used: Option<i64>) -> Option<InviteCode> {
    Some(InviteCode { code: "c".to_string(), created_by: 1, used_by: used, used_at: None, created_at: 0 })
}

#[test]
fn invites() {
    assert!(invite_usable(&invite(None)).is_ok());
    assert!(matches!(invite_usable(&invite(Some(3))), Err(InviteError::Used)));
    assert!(matches!(invite_usable(&None), Err(InviteError::Unknown)));
    assert_eq!(InviteError::Used.message(), "邀请码已被使用");
}

#[test]
fn https_guard() {
    assert!(transport_allowed(None, None));
    assert!(transport_allowed(Some("0"), None));
    assert!(!transport_allowed(Some("1"), None));
    assert!(!transport_allowed(Some("1"), Some("http")));
    assert!(transport_allowed(Some("1"), Some("https")));
}

#[test]
fn pages() {
    assert_eq!(page_window(None, None), (1, 50, 0));
    assert_eq!(page_window(Some(3), Some(20)), (3, 20, 40));
    assert_eq!(page_window(Some(0), Some(1000)), (1, 500, 0));
    assert_eq!(page_window(Some(-4), Some(0)), (1, 1, 0));
}

#[test]
fn dev_cert_plan() {
    let p = cert_plan(true, true, true, true, Some("v2-mtls-sni\n"), true, true);
    assert!(!p.new_ca && !p.new_server && !p.new_client);
    let p = cert_plan(true, false, true, true, None, true, false);
    assert!(p.new_ca && p.new_server && p.new_client);
    let p = cert_plan(true, true, true, true, Some("v1"), true, true);
    assert!(!p.new_ca && p.new_server && !p.new_client);
    let (san, cn) = node_cert_names("n7");
    assert_eq!(san, vec!["localhost".to_string(), "n7".to_string()]);
    assert_eq!(cn, "iris-node-n7");
}
