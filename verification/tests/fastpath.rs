use iris::conntrack::parse_conntrack_line;
use iris::fastpath::check_kernel_version;

#[test]
fn parse_tcp_established() {
    let line = "ipv4     2 tcp      6 431999 ESTABLISHED src=10.146.0.6 dst=104.198.114.243 sport=43210 dport=9301 packets=1234 bytes=560000 src=23.149.108.114 dst=10.146.0.4 sport=5201 dport=43210 packets=987 bytes=12340000 [ASSURED] mark=0 use=2";
    let e = parse_conntrack_line(line).unwrap();
    assert_eq!(e.proto, "tcp");
    assert_eq!(e.src, "10.146.0.6");
    assert_eq!(e.sport, 43210);
    assert_eq!(e.dport, 9301);
    assert_eq!(e.orig_bytes, 560000);
    assert_eq!(e.reply_bytes, 12340000);
    assert_eq!(e.flow_key(), "tcp:10.146.0.6:43210:9301");
}

#[test]
fn parse_udp_unreplied() {
    let line = "ipv4 2 udp 17 28 src=10.0.0.1 dst=10.0.0.2 sport=44444 dport=53 packets=1 bytes=64 [UNREPLIED] src=10.0.0.2 dst=10.0.0.1 sport=53 dport=44444 packets=0 bytes=0 mark=0 use=2";
    let e = parse_conntrack_line(line).unwrap();
    assert_eq!(e.proto, "udp");
    assert_eq!(e.dport, 53);
    assert_eq!(e.orig_bytes, 64);
    assert_eq!(e.reply_bytes, 0);
}

#[test]
fn parse_icmp_skipped() {
    let line = "ipv4 2 icmp 1 29 src=1.2.3.4 dst=5.6.7.8 type=8 code=0 id=1234 packets=1 bytes=84 src=5.6.7.8 dst=1.2.3.4 type=0 code=0 id=1234 packets=1 bytes=84 mark=0 use=1";
    assert!(parse_conntrack_line(line).is_none());
}

#[test]
fn parse_invalid_returns_none() {
    assert!(parse_conntrack_line("").is_none());
    assert!(parse_conntrack_line("garbage line without keywords").is_none());
}

#[test]
fn kernel_parse() {
    assert!(check_kernel_version("6.1.0-23-amd64"));
    assert!(check_kernel_version("5.15.0-1058-gcp"));
    assert!(check_kernel_version("5.4.0"));
    assert!(!check_kernel_version("4.19.0"));
    assert!(!check_kernel_version("3.10.0"));
    assert!(!check_kernel_version(""));
}

#[test]
fn parse_bad_port_falls_to_next_key() {
    let line = "tcp src=1.1.1.1 sport=x sport=7 dport=99999 dport=80 bytes=zz bytes=5 bytes=9";
    let e = parse_conntrack_line(line).unwrap();
    assert_eq!(e.sport, 7);
    assert_eq!(e.dport, 80);
    assert_eq!(e.orig_bytes, 0);
    assert_eq!(e.reply_bytes, 5);
    assert_eq!(e.flow_key(), "tcp:1.1.1.1:7:80");
}

#[test]
fn kernel_overflowing_major_counts_as_zero() {
    assert!(!check_kernel_version("99999999999.1"));
    assert!(check_kernel_version("linux 5.4"));
    assert!(!check_kernel_version("5"));
}
