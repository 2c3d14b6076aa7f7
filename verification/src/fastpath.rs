//! The kernel fast path: whether a node can use it (probed once at start),
//! and the per-forward byte accounting read from the kernel's connection
//! table.
use vstd::prelude::*;
use crate::text::{
    after_last, after_last_chars, chars_of, contains_chars, contains_seq, dec, dec_signed, fmt_i64,
    fmt_u64, is_lit, parse_unsigned, parse_unsigned_chars, push_all, split, split_by, split_tokens,
    string_of, tokens, trim, trim_chars, views, Sep,
};

verus! {

pub const MIN_KERNEL_MAJOR: u32 = 5;

pub const MIN_KERNEL_MINOR: u32 = 4;

pub open spec fn non_digit() -> spec_fn(char) -> bool {
    Sep::NonDigit.pred()
}

/// The `i`-th run of digits of a kernel release as a `u32`; 0 when it is
/// missing or too large.
pub open spec fn version_part(parts: Seq<Seq<char>>, i: int) -> nat {
    if 0 <= i < parts.len() {
        match parse_unsigned(parts[i], u32::MAX as nat) {
            Some(n) => n,
            None => 0,
        }
    } else {
        0
    }
}

/// A kernel release such as `6.1.0-23-amd64` is at least 5.4.
pub open spec fn kernel_new_enough(release: Seq<char>) -> bool {
    let parts = tokens(release, non_digit());
    let major = version_part(parts, 0);
    let minor = version_part(parts, 1);
    major > MIN_KERNEL_MAJOR || (major == MIN_KERNEL_MAJOR && minor >= MIN_KERNEL_MINOR)
}

fn part_value(parts: &Vec<Vec<char>>, i: usize) -> (r: u32)
    ensures
        r == version_part(views(parts@), i as int),
{
    if i < parts.len() {
        match parse_unsigned_chars(parts[i].as_slice(), 0xffff_ffff) {
            Some(n) => n as u32,
            None => 0,
        }
    } else {
        0
    }
}

/// Whether the kernel release `s` is at least 5.4: its first two runs of
/// digits are the major and minor version.
pub fn check_kernel_version(s: &str) -> (r: bool)
    ensures
        r == kernel_new_enough(s@),
{
    let cs = chars_of(s);
    let parts = split_tokens(cs.as_slice(), &Sep::NonDigit);
    let major = part_value(&parts, 0);
    let minor = part_value(&parts, 1);
    if major > MIN_KERNEL_MAJOR {
        return true;
    }
    major == MIN_KERNEL_MAJOR && minor >= MIN_KERNEL_MINOR
}


// ───────────────────────── capability probe ─────────────────────────

/// Whether a node can use the kernel fast path, and why not.
pub struct FastPathCapability {
    pub fastpath: bool,
    /// Why the fast path is off (`"ok"` when it is on).
    pub reason: String,
    /// The kernel release.
    pub kernel: String,
    pub in_container: bool,
}

impl Default for FastPathCapability {
    fn default() -> (r: Self)
        ensures
            !r.fastpath,
            r.reason@.len() == 0,
            r.kernel@.len() == 0,
            !r.in_container,
    {
        FastPathCapability { fastpath: false, reason: String::new(), kernel: String::new(), in_container: false }
    }
}

/// `(fastpath, reason, kernel, in_container)`.
pub type CapView = (bool, Seq<char>, Seq<char>, bool);

pub open spec fn cap_view(c: FastPathCapability) -> CapView {
    (c.fastpath, c.reason@, c.kernel@, c.in_container)
}

/// The checks that follow the kernel check, in the order they run.
pub enum ProbeCheck {
    /// The `nft` program runs.
    NftBinary,
    /// The node runs in a container.
    Container,
    /// The process may change the packet filter.
    NetAdmin,
    /// A test table could be created.
    DryRun,
}

/// What a probe does next.
pub enum ProbeNext {
    Run(ProbeCheck),
    Done,
}

pub open spec fn kernel_reason(kernel: Seq<char>) -> Seq<char> {
    "kernel-too-old (need ≥ 5.4, got "@ + kernel + ")"@
}

/// The capability and next step after the check `check`, which found
/// `held`; `detail` is the error of a failed test table.
pub open spec fn probe_after(c: CapView, check: ProbeCheck, held: bool, detail: Seq<char>) -> (CapView, ProbeNext) {
    match check {
        ProbeCheck::NftBinary => if held {
            (c, ProbeNext::Run(ProbeCheck::Container))
        } else {
            ((c.0, "nft-binary-missing"@, c.2, c.3), ProbeNext::Done)
        },
        ProbeCheck::Container => if held {
            ((c.0, "container-network-untrusted"@, c.2, true), ProbeNext::Done)
        } else {
            ((c.0, c.1, c.2, false), ProbeNext::Run(ProbeCheck::NetAdmin))
        },
        ProbeCheck::NetAdmin => if held {
            (c, ProbeNext::Run(ProbeCheck::DryRun))
        } else {
            ((c.0, "missing-CAP_NET_ADMIN"@, c.2, c.3), ProbeNext::Done)
        },
        ProbeCheck::DryRun => if held {
            ((true, "ok"@, c.2, c.3), ProbeNext::Done)
        } else {
            ((c.0, "dry-run-failed: "@ + detail, c.2, c.3), ProbeNext::Done)
        },
    }
}

/// Starts probing a node whose kernel release is `kernel`: a kernel older
/// than 5.4 ends it, else the `nft` program is checked next.
pub fn detect(kernel: String) -> (r: (FastPathCapability, ProbeNext))
    ensures
        r.0.kernel@ == kernel@,
        !r.0.fastpath,
        !r.0.in_container,
        kernel_new_enough(kernel@) ==> r.0.reason@.len() == 0 && r.1 == ProbeNext::Run(ProbeCheck::NftBinary),
        !kernel_new_enough(kernel@) ==> r.0.reason@ == kernel_reason(kernel@) && r.1 == ProbeNext::Done,
{
    let ok = check_kernel_version(kernel.as_str());
    if ok {
        (FastPathCapability { fastpath: false, reason: String::new(), kernel, in_container: false }, ProbeNext::Run(ProbeCheck::NftBinary))
    } else {
        let mut msg = chars_of("kernel-too-old (need ≥ 5.4, got ");
        let k = chars_of(kernel.as_str());
        push_all(&mut msg, k.as_slice());
        let close = chars_of(")");
        push_all(&mut msg, close.as_slice());
        (FastPathCapability { fastpath: false, reason: string_of(msg.as_slice()), kernel, in_container: false }, ProbeNext::Done)
    }
}

/// Takes in the finding of the check `check` and says what follows.
pub fn detect_continue(cap: &mut FastPathCapability, check: ProbeCheck, held: bool, detail: &str) -> (r: ProbeNext)
    ensures
        (cap_view(*final(cap)), r) == probe_after(cap_view(*old(cap)), check, held, detail@),
{
    match check {
        ProbeCheck::NftBinary => if held {
            ProbeNext::Run(ProbeCheck::Container)
        } else {
            cap.reason = String::from_str("nft-binary-missing");
            ProbeNext::Done
        },
        ProbeCheck::Container => {
            cap.in_container = held;
            if held {
                cap.reason = String::from_str("container-network-untrusted");
                ProbeNext::Done
            } else {
                ProbeNext::Run(ProbeCheck::NetAdmin)
            }
        },
        ProbeCheck::NetAdmin => if held {
            ProbeNext::Run(ProbeCheck::DryRun)
        } else {
            cap.reason = String::from_str("missing-CAP_NET_ADMIN");
            ProbeNext::Done
        },
        ProbeCheck::DryRun => if held {
            cap.fastpath = true;
            cap.reason = String::from_str("ok");
            ProbeNext::Done
        } else {
            let mut msg = chars_of("dry-run-failed: ");
            let d = chars_of(detail);
            push_all(&mut msg, d.as_slice());
            cap.reason = string_of(msg.as_slice());
            ProbeNext::Done
        },
    }
}

// ───────────────────────── packet-filter rules ─────────────────────────

/// A forward served by the kernel: traffic to `listen_port` goes to the
/// target. The target address is given as text (`target_ip`), IPv6 or not.
pub struct FastPathRule {
    pub forward_id: i64,
    pub listen_port: u16,
    pub protocol: String,
    pub target_ip: String,
    pub target_is_v6: bool,
    pub target_port: u16,
}

pub enum NftError {
    /// The fast path serves only `tcp` and `udp`.
    UnsupportedProtocol(String),
}

impl NftError {
    pub fn message(&self) -> (r: String)
        ensures
            match self {
                NftError::UnsupportedProtocol(p) => r@ == "fastpath unsupported protocol: "@ + p@,
            },
    {
        match self {
            NftError::UnsupportedProtocol(p) => {
                let mut m = chars_of("fastpath unsupported protocol: ");
                let q = chars_of(p.as_str());
                push_all(&mut m, q.as_slice());
                string_of(m.as_slice())
            },
        }
    }
}

/// The marker a rule of forward `id` carries in its comment.
pub open spec fn rule_marker(id: i64) -> Seq<char> {
    "\"iris-fwd-"@ + dec_signed(id as int) + "\""@
}

/// The script line that adds the rule of a forward.
pub open spec fn rule_line(id: i64, listen: u16, proto: Seq<char>, ip: Seq<char>, v6: bool, port: u16) -> Seq<char> {
    "add rule inet iris prerouting "@ + proto + " dport "@ + dec(listen as nat) + " counter dnat "@ + (if v6 {
        "ip6"@
    } else {
        "ip"@
    }) + " to "@ + (if v6 {
        "["@ + ip + "]"@
    } else {
        ip
    }) + ":"@ + dec(port as nat) + " comment "@ + rule_marker(id) + "\n"@
}

fn push_lit(out: &mut Vec<char>, lit: &str)
    ensures
        final(out)@ == old(out)@ + lit@,
{
    let v = chars_of(lit);
    push_all(out, v.as_slice());
}

/// The script that adds the rule of `rule`; only `tcp` and `udp` rules.
pub fn rule_script(rule: &FastPathRule) -> (r: Result<String, NftError>)
    ensures
        (rule.protocol@ == "tcp"@ || rule.protocol@ == "udp"@) ==> (r matches Ok(s) && s@ == rule_line(
            rule.forward_id,
            rule.listen_port,
            rule.protocol@,
            rule.target_ip@,
            rule.target_is_v6,
            rule.target_port,
        )),
        !(rule.protocol@ == "tcp"@ || rule.protocol@ == "udp"@) ==> (r matches Err(NftError::UnsupportedProtocol(p))
            && p@ == rule.protocol@),
{
    let proto = chars_of(rule.protocol.as_str());
    if !(is_lit(proto.as_slice(), "tcp") || is_lit(proto.as_slice(), "udp")) {
        return Err(NftError::UnsupportedProtocol(string_of(proto.as_slice())));
    }
    let mut out = chars_of("add rule inet iris prerouting ");
    push_all(&mut out, proto.as_slice());
    push_lit(&mut out, " dport ");
    let lp = fmt_u64(rule.listen_port as u64);
    push_all(&mut out, lp.as_slice());
    push_lit(&mut out, " counter dnat ");
    if rule.target_is_v6 {
        push_lit(&mut out, "ip6");
    } else {
        push_lit(&mut out, "ip");
    }
    push_lit(&mut out, " to ");
    let ip = chars_of(rule.target_ip.as_str());
    if rule.target_is_v6 {
        push_lit(&mut out, "[");
        push_all(&mut out, ip.as_slice());
        push_lit(&mut out, "]");
    } else {
        push_all(&mut out, ip.as_slice());
    }
    push_lit(&mut out, ":");
    let tp = fmt_u64(rule.target_port as u64);
    push_all(&mut out, tp.as_slice());
    push_lit(&mut out, " comment ");
    push_lit(&mut out, "\"iris-fwd-");
    let id = fmt_i64(rule.forward_id);
    push_all(&mut out, id.as_slice());
    push_lit(&mut out, "\"");
    push_lit(&mut out, "\n");
    proof {
        let v6 = rule.target_is_v6;
        assert(out@ =~= rule_line(
            rule.forward_id,
            rule.listen_port,
            rule.protocol@,
            rule.target_ip@,
            v6,
            rule.target_port,
        ));
    }
    Ok(string_of(out.as_slice()))
}

/// The script lines that delete the rules with handles `hs`.
pub open spec fn delete_lines(hs: Seq<u64>) -> Seq<char>
    decreases hs.len(),
{
    if hs.len() == 0 {
        Seq::empty()
    } else {
        delete_lines(hs.drop_last()) + "delete rule inet iris prerouting handle "@ + dec(hs.last() as nat) + "\n"@
    }
}

/// The script that deletes the rules with handles `handles`.
pub fn delete_script(handles: &Vec<u64>) -> (r: String)
    ensures
        r@ == delete_lines(handles@),
{
    let mut out: Vec<char> = Vec::new();
    let mut i: usize = 0;
    while i < handles.len()
        invariant
            i <= handles.len(),
            out@ == delete_lines(handles@.take(i as int)),
        decreases handles.len() - i,
    {
        assert(handles@.take(i + 1).drop_last() == handles@.take(i as int));
        assert(handles@.take(i + 1).last() == handles@[i as int]);
        push_lit(&mut out, "delete rule inet iris prerouting handle ");
        let h = fmt_u64(handles[i]);
        push_all(&mut out, h.as_slice());
        push_lit(&mut out, "\n");
        i += 1;
    }
    assert(handles@.take(handles.len() as int) == handles@);
    string_of(out.as_slice())
}

/// The handle at the end of a rule listing line: the number after the
/// last `# handle `.
pub open spec fn handle_of(line: Seq<char>) -> Option<u64> {
    match parse_unsigned(trim(after_last(line, "# handle "@)), u64::MAX as nat) {
        Some(n) => Some(n as u64),
        None => None,
    }
}

/// The handles of the lines of a rule listing that carry `marker`.
pub open spec fn handles_in(lines: Seq<Seq<char>>, marker: Seq<char>) -> Seq<u64>
    decreases lines.len(),
{
    if lines.len() == 0 {
        Seq::empty()
    } else {
        let r = handles_in(lines.drop_last(), marker);
        if contains_seq(lines.last(), marker) {
            match handle_of(lines.last()) {
                Some(h) => r.push(h),
                None => r,
            }
        } else {
            r
        }
    }
}

/// The handles of the rules of forward `forward_id` in the listing of the
/// rule chain (`nft -a list chain`), in order.
pub fn rule_handles(listing: &str, forward_id: i64) -> (r: Vec<u64>)
    ensures
        r@ == handles_in(split_by(listing@, Sep::One('\n').pred()), rule_marker(forward_id)),
{
    let cs = chars_of(listing);
    let lines = split(cs.as_slice(), &Sep::One('\n'));
    let ghost lv = views(lines@);
    let mut marker = chars_of("\"iris-fwd-");
    let id = fmt_i64(forward_id);
    push_all(&mut marker, id.as_slice());
    push_lit(&mut marker, "\"");
    assert(marker@ =~= rule_marker(forward_id));
    let pat = chars_of("# handle ");
    let mut out: Vec<u64> = Vec::new();
    let mut i: usize = 0;
    while i < lines.len()
        invariant
            lv == views(lines@),
            lv == split_by(listing@, Sep::One('\n').pred()),
            marker@ == rule_marker(forward_id),
            pat@ == "# handle "@,
            i <= lines.len(),
            out@ == handles_in(lv.take(i as int), marker@),
        decreases lines.len() - i,
    {
        assert(lv.take(i + 1).drop_last() == lv.take(i as int));
        assert(lv.take(i + 1).last() == lines@[i as int]@);
        let line = lines[i].as_slice();
        if contains_chars(line, marker.as_slice()) {
            let tail = after_last_chars(line, pat.as_slice());
            let t = trim_chars(tail.as_slice());
            match parse_unsigned_chars(t.as_slice(), 0xffff_ffff_ffff_ffff) {
                Some(n) => out.push(n),
                None => {},
            }
        }
        i += 1;
    }
    assert(lv.take(lines.len() as int) == lv);
    out
}

} // verus!
