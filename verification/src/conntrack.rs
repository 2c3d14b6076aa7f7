//! Lines of the kernel connection-tracking table:
//! `ipv4 2 tcp 6 119 ESTABLISHED src=A dst=B sport=C dport=D packets=P bytes=X
//! src=B dst=A sport=D dport=C packets=Q bytes=Y ...`. The first
//! `src`/`sport`/`dport`/`bytes` are the original direction (client to entry),
//! the second `bytes` the reply direction.
use vstd::prelude::*;
use crate::text::{
    chars_of, dec, fmt_u64, is_lit, parse_unsigned, parse_unsigned_chars, push_all, split_tokens,
    string_of, strip_prefix, strip_prefix_chars, tokens, views, ws_pred, Sep,
};

verus! {

/// One parsed connection: protocol, client address and port, listen port,
/// and the bytes of each direction.
pub struct CtEntry {
    pub proto: String,
    pub src: String,
    pub sport: u16,
    pub dport: u16,
    pub orig_bytes: u64,
    pub reply_bytes: u64,
}

pub type CtView = (Seq<char>, Seq<char>, u16, u16, u64, u64);

impl View for CtEntry {
    type V = CtView;

    open spec fn view(&self) -> CtView {
        (self.proto@, self.src@, self.sport, self.dport, self.orig_bytes, self.reply_bytes)
    }
}

/// What the scan has read so far: protocol, source, source port, destination
/// port, how many `bytes=` keys were seen (saturating), and the two byte counts.
pub type CtState = (Option<Seq<char>>, Option<Seq<char>>, Option<u16>, Option<u16>, u8, u64, u64);

pub open spec fn ct_init() -> CtState {
    (None, None, None, None, 0, 0, 0)
}

/// A port value: `u16::from_str`, `None` when it does not parse.
pub open spec fn parse_port(v: Seq<char>) -> Option<u16> {
    match parse_unsigned(v, 65535) {
        Some(n) => Some(n as u16),
        None => None,
    }
}

/// A byte count: `u64::from_str`, 0 when it does not parse.
pub open spec fn parse_count(v: Seq<char>) -> u64 {
    match parse_unsigned(v, 0xffff_ffff_ffff_ffff) {
        Some(n) => n as u64,
        None => 0,
    }
}

/// Reads one whitespace-separated token. The first `tcp`/`udp` is the
/// protocol; the first `src=`, `sport=` and `dport=` that parse count; the
/// first two `bytes=` are the original and reply byte counts.
pub open spec fn ct_step(st: CtState, tok: Seq<char>) -> CtState {
    if (tok == "tcp"@ || tok == "udp"@) && st.0 is None {
        (Some(tok), st.1, st.2, st.3, st.4, st.5, st.6)
    } else {
        match strip_prefix(tok, "src="@) {
            Some(v) => if st.1 is None {
                (st.0, Some(v), st.2, st.3, st.4, st.5, st.6)
            } else {
                st
            },
            None => match strip_prefix(tok, "sport="@) {
                Some(v) => if st.2 is None {
                    (st.0, st.1, parse_port(v), st.3, st.4, st.5, st.6)
                } else {
                    st
                },
                None => match strip_prefix(tok, "dport="@) {
                    Some(v) => if st.3 is None {
                        (st.0, st.1, st.2, parse_port(v), st.4, st.5, st.6)
                    } else {
                        st
                    },
                    None => match strip_prefix(tok, "bytes="@) {
                        Some(v) => {
                            let seen: u8 = if st.4 == 255 {
                                255
                            } else {
                                (st.4 + 1) as u8
                            };
                            let val = parse_count(v);
                            (
                                st.0,
                                st.1,
                                st.2,
                                st.3,
                                seen,
                                if seen == 1 {
                                    val
                                } else {
                                    st.5
                                },
                                if seen == 2 {
                                    val
                                } else {
                                    st.6
                                },
                            )
                        },
                        None => st,
                    },
                },
            },
        }
    }
}

pub open spec fn ct_scan(toks: Seq<Seq<char>>) -> CtState
    decreases toks.len(),
{
    if toks.len() == 0 {
        ct_init()
    } else {
        ct_step(ct_scan(toks.drop_last()), toks.last())
    }
}

/// A line's entry: present when protocol, source and both ports were read.
pub open spec fn parse_conntrack(line: Seq<char>) -> Option<CtView> {
    let st = ct_scan(tokens(line, ws_pred()));
    if st.0 is Some && st.1 is Some && st.2 is Some && st.3 is Some {
        Some((st.0->0, st.1->0, st.2->0, st.3->0, st.5, st.6))
    } else {
        None
    }
}

/// `proto:src:sport:dport`, which names one flow.
pub open spec fn flow_key_of(e: CtView) -> Seq<char> {
    e.0 + seq![':'] + e.1 + seq![':'] + dec(e.2 as nat) + seq![':'] + dec(e.3 as nat)
}

pub open spec fn opt_view(o: Option<Vec<char>>) -> Option<Seq<char>> {
    match o {
        Some(v) => Some(v@),
        None => None,
    }
}

impl CtEntry {
    pub fn flow_key(&self) -> (r: String)
        ensures
            r@ == flow_key_of(self@),
    {
        let mut out = chars_of(self.proto.as_str());
        out.push(':');
        let s = chars_of(self.src.as_str());
        push_all(&mut out, s.as_slice());
        out.push(':');
        let a = fmt_u64(self.sport as u64);
        push_all(&mut out, a.as_slice());
        out.push(':');
        let b = fmt_u64(self.dport as u64);
        push_all(&mut out, b.as_slice());
        assert(out@ =~= flow_key_of(self@));
        string_of(out.as_slice())
    }
}

fn port_of(v: &[char]) -> (r: Option<u16>)
    ensures
        r == parse_port(v@),
{
    match parse_unsigned_chars(v, 65535) {
        Some(n) => Some(n as u16),
        None => None,
    }
}

fn count_of(v: &[char]) -> (r: u64)
    ensures
        r == parse_count(v@),
{
    match parse_unsigned_chars(v, 0xffff_ffff_ffff_ffff) {
        Some(n) => n,
        None => 0,
    }
}

/// Parses one line of the connection-tracking table; `None` for a line
/// without a protocol, source or ports (ICMP, garbage).
pub fn parse_conntrack_line(line: &str) -> (r: Option<CtEntry>)
    ensures
        r matches Some(e) ==> parse_conntrack(line@) == Some(e@),
        r is None ==> parse_conntrack(line@) is None,
{
    let cs = chars_of(line);
    let toks = split_tokens(cs.as_slice(), &Sep::Space);
    let ghost ts = views(toks@);
    assert(Sep::Space.pred() == ws_pred());
    let mut proto: Option<Vec<char>> = None;
    let mut src: Option<Vec<char>> = None;
    let mut sport: Option<u16> = None;
    let mut dport: Option<u16> = None;
    let mut seen: u8 = 0;
    let mut orig: u64 = 0;
    let mut reply: u64 = 0;
    let mut i: usize = 0;
    while i < toks.len()
        invariant
            ts == views(toks@),
            i <= toks.len(),
            ct_scan(ts.take(i as int)) == (opt_view(proto), opt_view(src), sport, dport, seen, orig, reply),
        decreases toks.len() - i,
    {
        let tok = toks[i].as_slice();
        assert(ts.take(i + 1).drop_last() == ts.take(i as int));
        assert(ts.take(i + 1).last() == tok@);
        if (is_lit(tok, "tcp") || is_lit(tok, "udp")) && proto.is_none() {
            proto = Some(toks[i].clone());
        } else {
            match strip_prefix_chars(tok, "src=") {
                Some(v) => {
                    if src.is_none() {
                        src = Some(v);
                    }
                },
                None => match strip_prefix_chars(tok, "sport=") {
                    Some(v) => {
                        if sport.is_none() {
                            sport = port_of(v.as_slice());
                        }
                    },
                    None => match strip_prefix_chars(tok, "dport=") {
                        Some(v) => {
                            if dport.is_none() {
                                dport = port_of(v.as_slice());
                            }
                        },
                        None => match strip_prefix_chars(tok, "bytes=") {
                            Some(v) => {
                                let val = count_of(v.as_slice());
                                seen = if seen == 255 {
                                    255
                                } else {
                                    seen + 1
                                };
                                if seen == 1 {
                                    orig = val;
                                } else if seen == 2 {
                                    reply = val;
                                }
                            },
                            None => {},
                        },
                    },
                },
            }
        }
        i += 1;
    }
    assert(ts.take(toks.len() as int) == ts);
    match (proto, src, sport, dport) {
        (Some(p), Some(s), Some(a), Some(b)) => Some(
            CtEntry {
                proto: string_of(p.as_slice()),
                src: string_of(s.as_slice()),
                sport: a,
                dport: b,
                orig_bytes: orig,
                reply_bytes: reply,
            },
        ),
        _ => None,
    }
}

} // verus!
