use iris::conntrack::CtEntry;
use iris::flows::{parse_conntrack_table, CounterSnapshot, NftFastPath};

fn entry(src: &str, sport: u16, dport: u16, orig: u64, reply: u64) -> CtEntry {
    CtEntry {
        proto: "tcp".to_string(),
        src: src.to_string(),
        sport,
        dport,
        orig_bytes: orig,
        reply_bytes: reply,
    }
}

fn totals(v: &[CounterSnapshot]) -> Vec<(i64, u64, u64)> {
    v.iter().map(|c| (c.forward_id, c.bytes_in, c.bytes_out)).collect()
}

#[test]
fn delta_tracking_simulates_correctly() {
    let mut fp = NftFastPath::new();
    fp.track_rule(9301, 47);
    // the first poll takes the flows present as its baseline
    fp.poll(&vec![]);
    // flow A has carried 1000/2000
    fp.poll(&vec![entry("10.0.0.1", 1234, 9301, 1000, 2000)]);
    // flow A grows to 1500/3000
    fp.poll(&vec![entry("10.0.0.1", 1234, 9301, 1500, 3000)]);
    let snap = fp.snapshot_cumulative();
    assert_eq!(totals(&snap), vec![(47, 1500, 3000)]); // 1000 + 500, 2000 + 1000
}

#[test]
fn bootstrap_poll_counts_nothing() {
    let mut fp = NftFastPath::new();
    fp.track_rule(9301, 47);
    fp.poll(&vec![entry("10.0.0.1", 1234, 9301, 900, 800)]);
    assert_eq!(totals(&fp.snapshot_cumulative()), vec![(47, 0, 0)]);
    // only what the flow carried after the baseline counts
    fp.poll(&vec![entry("10.0.0.1", 1234, 9301, 1000, 1000)]);
    assert_eq!(totals(&fp.snapshot_cumulative()), vec![(47, 100, 200)]);
}

#[test]
fn totals_never_decrease_when_counters_go_back() {
    let mut fp = NftFastPath::new();
    fp.track_rule(80, 1);
    fp.poll(&vec![]);
    fp.poll(&vec![entry("1.1.1.1", 5, 80, 500, 500)]);
    fp.poll(&vec![entry("1.1.1.1", 5, 80, 100, 100)]);
    assert_eq!(totals(&fp.snapshot_cumulative()), vec![(1, 500, 500)]);
}

#[test]
fn vanished_flow_starts_over() {
    let mut fp = NftFastPath::new();
    fp.track_rule(80, 1);
    fp.poll(&vec![]);
    fp.poll(&vec![entry("1.1.1.1", 5, 80, 500, 50)]);
    fp.poll(&vec![]);
    fp.poll(&vec![entry("1.1.1.1", 5, 80, 30, 3)]);
    assert_eq!(totals(&fp.snapshot_cumulative()), vec![(1, 530, 53)]);
}

#[test]
fn unknown_port_is_ignored() {
    let mut fp = NftFastPath::new();
    fp.track_rule(80, 1);
    fp.poll(&vec![]);
    fp.poll(&vec![entry("1.1.1.1", 5, 81, 500, 50)]);
    assert_eq!(totals(&fp.snapshot_cumulative()), vec![(1, 0, 0)]);
}

#[test]
fn totals_saturate() {
    let mut fp = NftFastPath::new();
    fp.track_rule(80, 1);
    fp.poll(&vec![]);
    fp.poll(&vec![entry("1.1.1.1", 5, 80, u64::MAX, 1)]);
    fp.poll(&vec![entry("1.1.1.2", 6, 80, 10, 1)]);
    assert_eq!(totals(&fp.snapshot_cumulative()), vec![(1, u64::MAX, 2)]);
}

#[test]
fn untrack_undoes_track() {
    let mut fp = NftFastPath::new();
    fp.track_rule(80, 1);
    fp.track_rule(443, 2);
    fp.untrack_rule(2);
    assert_eq!(totals(&fp.snapshot_cumulative()), vec![(1, 0, 0)]);
    fp.poll(&vec![]);
    fp.poll(&vec![entry("1.1.1.1", 5, 443, 10, 10)]);
    assert_eq!(totals(&fp.snapshot_cumulative()), vec![(1, 0, 0)]);
}

#[test]
fn retrack_keeps_totals_and_moves_port() {
    let mut fp = NftFastPath::new();
    fp.track_rule(80, 1);
    fp.poll(&vec![]);
    fp.poll(&vec![entry("1.1.1.1", 5, 80, 10, 20)]);
    fp.track_rule(80, 2);
    fp.poll(&vec![entry("1.1.1.1", 5, 80, 15, 25)]);
    assert_eq!(totals(&fp.snapshot_cumulative()), vec![(1, 10, 20), (2, 5, 5)]);
}

#[test]
fn cleanup_forgets_everything() {
    let mut fp = NftFastPath::new();
    fp.mark_initialized();
    assert!(fp.is_available());
    fp.track_rule(80, 1);
    fp.cleanup();
    assert!(!fp.is_available());
    assert!(fp.snapshot_cumulative().is_empty());
}

#[test]
fn get_counters_reads_the_table() {
    let mut fp = NftFastPath::new();
    fp.track_rule(9301, 47);
    let t1 = "ipv4 2 tcp 6 100 ESTABLISHED src=10.0.0.1 dst=10.0.0.2 sport=1234 dport=9301 packets=1 bytes=100 src=10.0.0.2 dst=10.0.0.1 sport=9301 dport=1234 packets=1 bytes=200\n";
    assert_eq!(totals(&fp.get_counters(t1)), vec![(47, 0, 0)]);
    let t2 = "ipv4 2 tcp 6 100 ESTABLISHED src=10.0.0.1 dst=10.0.0.2 sport=1234 dport=9301 packets=1 bytes=150 src=10.0.0.2 dst=10.0.0.1 sport=9301 dport=1234 packets=1 bytes=260\nipv4 2 icmp 1 29 src=1.2.3.4 dst=5.6.7.8 type=8 code=0 id=1 packets=1 bytes=84\n";
    assert_eq!(totals(&fp.get_counters(t2)), vec![(47, 50, 60)]);
}

#[test]
fn table_lines_that_parse() {
    let t = "ipv4 2 udp 17 28 src=10.0.0.1 dst=10.0.0.2 sport=44444 dport=53 packets=1 bytes=64 src=10.0.0.2 dst=10.0.0.1 sport=53 dport=44444 packets=0 bytes=0\ngarbage\n\nipv4 2 tcp 6 1 src=1.1.1.1 dst=2.2.2.2 sport=1 dport=2 packets=1 bytes=3 src=2.2.2.2 dst=1.1.1.1 sport=2 dport=1 packets=1 bytes=4";
    let es = parse_conntrack_table(t);
    assert_eq!(es.len(), 2);
    assert_eq!(es[0].dport, 53);
    assert_eq!((es[1].orig_bytes, es[1].reply_bytes), (3, 4));
}
