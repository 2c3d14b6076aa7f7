use iris::dataplane::{limit_cells, throttle_cells, MAX_CELLS};
use iris::node::{grpc_to_quic_addr, grpc_to_raw_addr, grpc_to_raw_plain_addr, is_plain};

#[test]
fn endpoint_ports() {
    assert_eq!(grpc_to_quic_addr("host:7444"), Some("host:7446".to_string()));
    assert_eq!(grpc_to_raw_addr("host:7444"), Some("host:7445".to_string()));
    assert_eq!(grpc_to_raw_plain_addr("host:7444"), Some("host:7447".to_string()));
    assert_eq!(grpc_to_raw_addr("[::1]:7444"), Some("[::1]:7445".to_string()));
}

#[test]
fn endpoint_ports_refused() {
    assert_eq!(grpc_to_raw_addr("host"), None);
    assert_eq!(grpc_to_raw_addr("host:x"), None);
    assert_eq!(grpc_to_raw_addr("host:65535"), None);
    assert_eq!(grpc_to_raw_plain_addr("host:65533"), None);
    assert_eq!(grpc_to_raw_plain_addr("host:65532"), Some("host:65535".to_string()));
    assert_eq!(grpc_to_quic_addr("host:65534"), None);
}

#[test]
fn plain_links() {
    assert!(is_plain("plain"));
    assert!(is_plain("PLAIN"));
    assert!(!is_plain("tls"));
    assert!(!is_plain(""));
}

#[test]
fn rate_limit_cells() {
    assert_eq!(limit_cells(0), None);
    assert_eq!(limit_cells(1024), Some(1024));
    assert_eq!(limit_cells(u64::MAX), Some(MAX_CELLS));
    assert_eq!(MAX_CELLS, u32::MAX - 1);
    assert_eq!(throttle_cells(0), None);
    assert_eq!(throttle_cells(65536), Some(65536));
}
