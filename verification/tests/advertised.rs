use iris::net::{parse_ip, resolve_advertised_addr, IpAddress};

fn ip(s: &str) -> Option<&str> {
    Some(s)
}

#[test]
fn empty_advertised_returns_none() {
    assert_eq!(resolve_advertised_addr("", ip("1.2.3.4")), None);
}

#[test]
fn wildcard_v4_substitutes_peer_ip() {
    assert_eq!(resolve_advertised_addr("0.0.0.0:7444", ip("1.2.3.4")), Some("1.2.3.4:7444".into()));
}

#[test]
fn loopback_v4_substitutes_peer_ip() {
    assert_eq!(resolve_advertised_addr("127.0.0.1:7444", ip("1.2.3.4")), Some("1.2.3.4:7444".into()));
}

#[test]
fn unspecified_v6_substitutes_peer_ip() {
    assert_eq!(resolve_advertised_addr("[::]:7444", ip("1.2.3.4")), Some("1.2.3.4:7444".into()));
}

#[test]
fn explicit_ip_passthrough() {
    assert_eq!(resolve_advertised_addr("5.6.7.8:7444", ip("1.2.3.4")), Some("5.6.7.8:7444".into()));
}

#[test]
fn v6_peer_wraps_brackets() {
    assert_eq!(resolve_advertised_addr("0.0.0.0:7444", ip("2001:db8::1")), Some("[2001:db8::1]:7444".into()));
}

#[test]
fn wildcard_without_peer_returns_none() {
    assert_eq!(resolve_advertised_addr("0.0.0.0:7444", None), None);
}

#[test]
fn malformed_addr_returns_none() {
    assert_eq!(resolve_advertised_addr("notaport", ip("1.2.3.4")), None);
    assert_eq!(resolve_advertised_addr("0.0.0.0:notnum", ip("1.2.3.4")), None);
}

#[test]
fn other_loopbacks_substitute() {
    assert_eq!(resolve_advertised_addr("localhost:80", ip("9.9.9.9")), Some("9.9.9.9:80".into()));
    assert_eq!(resolve_advertised_addr("127.8.9.10:80", ip("9.9.9.9")), Some("9.9.9.9:80".into()));
    assert_eq!(resolve_advertised_addr("[::1]:80", ip("9.9.9.9")), Some("9.9.9.9:80".into()));
    assert_eq!(resolve_advertised_addr("[0:0::0:1]:80", ip("9.9.9.9")), Some("9.9.9.9:80".into()));
}

#[test]
fn hostname_and_port_bounds() {
    assert_eq!(resolve_advertised_addr("node.example:65535", ip("9.9.9.9")), Some("node.example:65535".into()));
    assert_eq!(resolve_advertised_addr("node.example:65536", ip("9.9.9.9")), None);
    // an address with a routable host is kept as advertised
    assert_eq!(resolve_advertised_addr("[2001:db8::5]:80", ip("9.9.9.9")), Some("[2001:db8::5]:80".into()));
    assert_eq!(resolve_advertised_addr("[2001:db8::5]:7444", ip("1.2.3.4")), Some("[2001:db8::5]:7444".into()));
}

fn octets(s: &str) -> Option<Vec<u8>> {
    parse_ip(s).map(|a| a.octets())
}

#[test]
fn parses_ipv4() {
    assert_eq!(octets("10.1.2.255"), Some(vec![10, 1, 2, 255]));
    assert_eq!(octets("256.1.1.1"), None);
    assert_eq!(octets("01.1.1.1"), None);
    assert_eq!(octets("1.1.1"), None);
    assert_eq!(octets("1.1.1.1.1"), None);
    assert_eq!(octets(""), None);
}

#[test]
fn parses_ipv6() {
    let mut loop6 = vec![0u8; 16];
    loop6[15] = 1;
    assert_eq!(octets("::1"), Some(loop6.clone()));
    assert_eq!(octets("0:0:0:0:0:0:0:1"), Some(loop6.clone()));
    assert_eq!(octets("::0.0.0.1"), Some(loop6));
    assert_eq!(octets("::"), Some(vec![0u8; 16]));
    assert_eq!(
        octets("2001:DB8::ff00:42:8329"),
        Some(vec![0x20, 0x01, 0x0d, 0xb8, 0, 0, 0, 0, 0, 0, 0xff, 0x00, 0x00, 0x42, 0x83, 0x29])
    );
    assert_eq!(
        octets("::ffff:1.2.3.4"),
        Some(vec![0, 0, 0, 0, 0, 0, 0, 0, 0, 0, 0xff, 0xff, 1, 2, 3, 4])
    );
    assert_eq!(octets("1::2::3"), None);
    assert_eq!(octets("12345::"), None);
    assert_eq!(octets("1:2:3:4:5:6:7:8:9"), None);
    assert_eq!(octets("1.2.3.4::"), None);
    assert_eq!(octets(":::"), None);
    assert_eq!(octets("1:2:3:4:5:6:7::"), Some(vec![0, 1, 0, 2, 0, 3, 0, 4, 0, 5, 0, 6, 0, 7, 0, 0]));
}

#[test]
fn local_or_unspecified_addresses() {
    assert!(IpAddress::V4([127, 0, 0, 2]).is_local_or_unspecified());
    assert!(IpAddress::V4([0, 0, 0, 0]).is_local_or_unspecified());
    assert!(!IpAddress::V4([10, 0, 0, 1]).is_local_or_unspecified());
    let mut a = [0u8; 16];
    assert!(IpAddress::V6(a).is_local_or_unspecified());
    a[15] = 1;
    assert!(IpAddress::V6(a).is_local_or_unspecified());
    a[15] = 2;
    assert!(!IpAddress::V6(a).is_local_or_unspecified());
}
