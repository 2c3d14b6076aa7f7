use iris::metrics::{detect_virtualization, disk_usage, net_totals, parse_sockstat};

#[test]
fn disk_sums() {
    assert_eq!(disk_usage(&vec![]), (0, 0));
    assert_eq!(disk_usage(&vec![(100, 40), (50, 60)]), (150, 60));
    assert_eq!(disk_usage(&vec![(u64::MAX, 0), (1, 0)]), (u64::MAX, u64::MAX));
}

#[test]
fn net_sums() {
    assert_eq!(net_totals(&vec![(1, 2), (3, 4)]), (4, 6));
    assert_eq!(net_totals(&vec![(u64::MAX, 0), (5, 0)]), (u64::MAX, 0));
}

#[test]
fn sockstat_counts() {
    let s = "sockets: used 312\nTCP: inuse 8 orphan 0 tw 1 alloc 13 mem 1\nUDP: inuse 7 mem 2\nUDPLITE: inuse 0\n";
    assert_eq!(parse_sockstat(s), (8, 7));
    assert_eq!(parse_sockstat(""), (0, 0));
    assert_eq!(parse_sockstat("TCP: inuse x\nUDP: inuse 3"), (0, 3));
}

#[test]
fn virtualization_kinds() {
    assert_eq!(detect_virtualization(Some("kvm\n".to_string()), None), "kvm");
    assert_eq!(detect_virtualization(Some("none\n".to_string()), Some("KVM".to_string())), "none");
    assert_eq!(detect_virtualization(Some("".to_string()), Some("VMware Virtual Platform".to_string())), "kvm-or-vmware");
    assert_eq!(detect_virtualization(None, Some("Standard PC (KVM)".to_string())), "kvm-or-vmware");
    assert_eq!(detect_virtualization(None, Some("ThinkPad".to_string())), "unknown");
    assert_eq!(detect_virtualization(None, None), "unknown");
}
