use iris::fastpath::{
    delete_script, detect, detect_continue, rule_handles, rule_script, FastPathCapability, FastPathRule,
    NftError, ProbeCheck, ProbeNext,
};

fn run(kernel: &str, nft: bool, container: bool, admin: bool, dry: Result<(), &str>) -> FastPathCapability {
    let (mut cap, mut next) = detect(kernel.to_string());
    while let ProbeNext::Run(check) = next {
        next = match check {
            ProbeCheck::NftBinary => detect_continue(&mut cap, ProbeCheck::NftBinary, nft, ""),
            ProbeCheck::Container => detect_continue(&mut cap, ProbeCheck::Container, container, ""),
            ProbeCheck::NetAdmin => detect_continue(&mut cap, ProbeCheck::NetAdmin, admin, ""),
            ProbeCheck::DryRun => match dry {
                Ok(()) => detect_continue(&mut cap, ProbeCheck::DryRun, true, ""),
                Err(e) => detect_continue(&mut cap, ProbeCheck::DryRun, false, e),
            },
        };
    }
    cap
}

#[test]
fn probe_all_checks_pass() {
    let cap = run("6.1.0-23-amd64", true, false, true, Ok(()));
    assert!(cap.fastpath);
    assert_eq!(cap.reason, "ok");
    assert_eq!(cap.kernel, "6.1.0-23-amd64");
    assert!(!cap.in_container);
}

#[test]
fn probe_old_kernel() {
    let cap = run("4.19.0", true, false, true, Ok(()));
    assert!(!cap.fastpath);
    assert_eq!(cap.reason, "kernel-too-old (need ≥ 5.4, got 4.19.0)");
}

#[test]
fn probe_each_failure_reason() {
    assert_eq!(run("5.4.0", false, false, true, Ok(())).reason, "nft-binary-missing");
    let c = run("5.4.0", true, true, true, Ok(()));
    assert_eq!(c.reason, "container-network-untrusted");
    assert!(c.in_container);
    assert_eq!(run("5.4.0", true, false, false, Ok(())).reason, "missing-CAP_NET_ADMIN");
    let d = run("5.4.0", true, false, true, Err("create probe table: denied"));
    assert_eq!(d.reason, "dry-run-failed: create probe table: denied");
    assert!(!d.fastpath);
}

#[test]
fn capability_default_is_off() {
    let c = FastPathCapability::default();
    assert!(!c.fastpath);
    assert!(c.reason.is_empty() && c.kernel.is_empty());
}

fn rule(proto: &str, ip: &str, v6: bool) -> FastPathRule {
    FastPathRule {
        forward_id: 42,
        listen_port: 10000,
        protocol: proto.to_string(),
        target_ip: ip.to_string(),
        target_is_v6: v6,
        target_port: 443,
    }
}

#[test]
fn rule_script_v4_and_v6() {
    let s = rule_script(&rule("tcp", "1.2.3.4", false)).ok().unwrap();
    assert_eq!(
        s,
        "add rule inet iris prerouting tcp dport 10000 counter dnat ip to 1.2.3.4:443 comment \"iris-fwd-42\"\n"
    );
    let s6 = rule_script(&rule("udp", "2001:db8::1", true)).ok().unwrap();
    assert_eq!(
        s6,
        "add rule inet iris prerouting udp dport 10000 counter dnat ip6 to [2001:db8::1]:443 comment \"iris-fwd-42\"\n"
    );
}

#[test]
fn rule_script_rejects_other_protocols() {
    match rule_script(&rule("tcp+udp", "1.2.3.4", false)) {
        Err(NftError::UnsupportedProtocol(p)) => {
            assert_eq!(p, "tcp+udp");
            assert_eq!(
                NftError::UnsupportedProtocol(p).message(),
                "fastpath unsupported protocol: tcp+udp"
            );
        },
        _ => panic!("expected an error"),
    }
}

#[test]
fn delete_script_lines() {
    assert_eq!(delete_script(&vec![]), "");
    assert_eq!(
        delete_script(&vec![7, 12]),
        "delete rule inet iris prerouting handle 7\ndelete rule inet iris prerouting handle 12\n"
    );
}

#[test]
fn handles_of_a_forward() {
    let listing = "table inet iris {\n\tchain prerouting {\n\t\ttcp dport 10000 counter packets 0 bytes 0 dnat ip to 1.2.3.4:443 comment \"iris-fwd-42\" # handle 5\n\t\ttcp dport 10001 counter dnat ip to 1.2.3.4:443 comment \"iris-fwd-420\" # handle 6\n\t\tudp dport 10000 counter dnat ip to 1.2.3.4:443 comment \"iris-fwd-42\" # handle 9\n\t}\n}\n";
    assert_eq!(rule_handles(listing, 42), vec![5, 9]);
    assert_eq!(rule_handles(listing, 420), vec![6]);
    assert_eq!(rule_handles(listing, 7), Vec::<u64>::new());
    assert_eq!(rule_handles("comment \"iris-fwd-1\" # handle x", 1), Vec::<u64>::new());
}
