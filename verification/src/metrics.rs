//! The integer side of a node's resource report: disk and network sums,
//! socket counts from the kernel's socket statistics, and the kind of
//! virtualization.
use vstd::prelude::*;
use crate::text::{
    chars_of, contains_chars, contains_seq, parse_unsigned, parse_unsigned_chars, split, split_by,
    split_tokens, strip_prefix, strip_prefix_chars, string_of, tokens, trim, trim_chars, views, ws_pred, Sep,
};

verus! {

/// Total and used space over disks given as `(total, available)`, each sum
/// saturating.
pub open spec fn disk_sums(d: Seq<(u64, u64)>) -> (u64, u64)
    decreases d.len(),
{
    if d.len() == 0 {
        (0, 0)
    } else {
        let r = disk_sums(d.drop_last());
        let (total, avail) = d.last();
        (r.0.saturating_add(total), r.1.saturating_add(total.saturating_sub(avail)))
    }
}

/// Bytes sent and received over interfaces given as `(sent, received)`,
/// each sum saturating.
pub open spec fn net_sums(n: Seq<(u64, u64)>) -> (u64, u64)
    decreases n.len(),
{
    if n.len() == 0 {
        (0, 0)
    } else {
        let r = net_sums(n.drop_last());
        (r.0.saturating_add(n.last().0), r.1.saturating_add(n.last().1))
    }
}

/// Sums the space of the mounted disks, as `(total, used)`.
pub fn disk_usage(disks: &Vec<(u64, u64)>) -> (r: (u64, u64))
    ensures
        r == disk_sums(disks@),
{
    let mut total: u64 = 0;
    let mut used: u64 = 0;
    let mut i: usize = 0;
    while i < disks.len()
        invariant
            i <= disks.len(),
            (total, used) == disk_sums(disks@.take(i as int)),
        decreases disks.len() - i,
    {
        assert(disks@.take(i + 1).drop_last() == disks@.take(i as int));
        let (t, a) = disks[i];
        total = total.saturating_add(t);
        used = used.saturating_add(t.saturating_sub(a));
        i += 1;
    }
    assert(disks@.take(disks.len() as int) == disks@);
    (total, used)
}

/// Sums the traffic of the network interfaces, as `(sent, received)`.
pub fn net_totals(ifaces: &Vec<(u64, u64)>) -> (r: (u64, u64))
    ensures
        r == net_sums(ifaces@),
{
    let mut up: u64 = 0;
    let mut down: u64 = 0;
    let mut i: usize = 0;
    while i < ifaces.len()
        invariant
            i <= ifaces.len(),
            (up, down) == net_sums(ifaces@.take(i as int)),
        decreases ifaces.len() - i,
    {
        assert(ifaces@.take(i + 1).drop_last() == ifaces@.take(i as int));
        up = up.saturating_add(ifaces[i].0);
        down = down.saturating_add(ifaces[i].1);
        i += 1;
    }
    assert(ifaces@.take(ifaces.len() as int) == ifaces@);
    (up, down)
}

/// The count after `prefix` on a socket-statistics line: its first word as
/// a `u32`, 0 when that is no number.
pub open spec fn inuse_count(rest: Seq<char>) -> u32 {
    let w = tokens(rest, ws_pred());
    if w.len() > 0 {
        match parse_unsigned(w[0], u32::MAX as nat) {
            Some(n) => n as u32,
            None => 0,
        }
    } else {
        0
    }
}

/// TCP and UDP sockets in use, from the lines of the socket statistics; a
/// later line for a protocol overrides an earlier one.
pub open spec fn sockstat_counts(lines: Seq<Seq<char>>) -> (u32, u32)
    decreases lines.len(),
{
    if lines.len() == 0 {
        (0, 0)
    } else {
        let r = sockstat_counts(lines.drop_last());
        match strip_prefix(lines.last(), "TCP: inuse "@) {
            Some(rest) => (inuse_count(rest), r.1),
            None => match strip_prefix(lines.last(), "UDP: inuse "@) {
                Some(rest) => (r.0, inuse_count(rest)),
                None => r,
            },
        }
    }
}

fn inuse_of(rest: &[char]) -> (r: u32)
    ensures
        r == inuse_count(rest@),
{
    let w = split_tokens(rest, &Sep::Space);
    assert(Sep::Space.pred() == ws_pred());
    if w.len() > 0 {
        assert(views(w@)[0] == w@[0]@);
        match parse_unsigned_chars(w[0].as_slice(), 0xffff_ffff) {
            Some(n) => n as u32,
            None => 0,
        }
    } else {
        0
    }
}

/// The TCP and UDP sockets in use, from the text of the kernel's socket
/// statistics.
pub fn parse_sockstat(content: &str) -> (r: (u32, u32))
    ensures
        r == sockstat_counts(split_by(content@, Sep::One('\n').pred())),
{
    let cs = chars_of(content);
    let lines = split(cs.as_slice(), &Sep::One('\n'));
    let ghost lv = views(lines@);
    let mut tcp: u32 = 0;
    let mut udp: u32 = 0;
    let mut i: usize = 0;
    while i < lines.len()
        invariant
            lv == views(lines@),
            lv == split_by(content@, Sep::One('\n').pred()),
            i <= lines.len(),
            (tcp, udp) == sockstat_counts(lv.take(i as int)),
        decreases lines.len() - i,
    {
        assert(lv.take(i + 1).drop_last() == lv.take(i as int));
        assert(lv.take(i + 1).last() == lines@[i as int]@);
        let line = lines[i].as_slice();
        match strip_prefix_chars(line, "TCP: inuse ") {
            Some(rest) => {
                tcp = inuse_of(rest.as_slice());
            },
            None => match strip_prefix_chars(line, "UDP: inuse ") {
                Some(rest) => {
                    udp = inuse_of(rest.as_slice());
                },
                None => {},
            },
        }
        i += 1;
    }
    assert(lv.take(lines.len() as int) == lv);
    (tcp, udp)
}

/// `str::to_lowercase`: the Unicode lowercase of `s`.
pub uninterp spec fn lowercase_of(s: Seq<char>) -> Seq<char>;

/// `str::to_lowercase`, a function of the text alone.
#[verifier::external_body]
fn to_lowercase(s: &str) -> (r: String)
    ensures
        r@ == lowercase_of(s@),
{
    s.to_lowercase()
}

/// The kind of virtualization, from what the detection tool printed (when
/// it ran and printed UTF-8) and else from the machine's product name
/// (when it could be read): the tool's answer when it gave one, else a KVM
/// or VMware product, else unknown.
pub open spec fn virtualization(detect: Option<Seq<char>>, product: Option<Seq<char>>) -> Seq<char> {
    let tool = match detect {
        Some(o) => trim(o),
        None => Seq::empty(),
    };
    if tool.len() > 0 {
        tool
    } else {
        match product {
            Some(p) => if contains_seq(lowercase_of(p), "kvm"@) || contains_seq(lowercase_of(p), "vmware"@) {
                "kvm-or-vmware"@
            } else {
                "unknown"@
            },
            None => "unknown"@,
        }
    }
}

/// Names the virtualization a node runs under.
pub fn detect_virtualization(detect_output: Option<String>, product_name: Option<String>) -> (r: String)
    ensures
        r@ == virtualization(
            match detect_output {
                Some(o) => Some(o@),
                None => None,
            },
            match product_name {
                Some(p) => Some(p@),
                None => None,
            },
        ),
{
    match &detect_output {
        Some(o) => {
            let t = trim_chars(chars_of(o.as_str()).as_slice());
            if t.len() > 0 {
                return string_of(t.as_slice());
            }
        },
        None => {},
    }
    match &product_name {
        Some(p) => {
            let low = to_lowercase(p.as_str());
            let lc = chars_of(low.as_str());
            let kvm = chars_of("kvm");
            let vmw = chars_of("vmware");
            if contains_chars(lc.as_slice(), kvm.as_slice()) || contains_chars(lc.as_slice(), vmw.as_slice()) {
                String::from_str("kvm-or-vmware")
            } else {
                String::from_str("unknown")
            }
        },
        None => String::from_str("unknown"),
    }
}

} // verus!
