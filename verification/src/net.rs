//! Network addresses as plain values, and their text form.
use vstd::prelude::*;
use crate::text::{all_digits, digits_value, is_digit, parse_unsigned, rsplit_once, split, split_by, views, Sep};

verus! {

/// An IP address by its octets.
pub enum IpAddress {
    V4([u8; 4]),
    V6([u8; 16]),
}

impl IpAddress {
    /// The address's octets in network order (4 for IPv4, 16 for IPv6).
    pub open spec fn octets_spec(&self) -> Seq<u8> {
        match self {
            IpAddress::V4(a) => a@,
            IpAddress::V6(a) => a@,
        }
    }

    pub fn octets(&self) -> (r: Vec<u8>)
        ensures
            r@ == self.octets_spec(),
    {
        let mut r: Vec<u8> = Vec::new();
        match self {
            IpAddress::V4(a) => {
                let mut i: usize = 0;
                while i < 4
                    invariant
                        i <= 4,
                        r@ == a@.take(i as int),
                    decreases 4 - i,
                {
                    r.push(a[i]);
                    i += 1;
                    assert(a@.take(i as int) == a@.take(i - 1).push(a@[i - 1]));
                }
                assert(a@.take(4) == a@);
            },
            IpAddress::V6(a) => {
                let mut i: usize = 0;
                while i < 16
                    invariant
                        i <= 16,
                        r@ == a@.take(i as int),
                    decreases 16 - i,
                {
                    r.push(a[i]);
                    i += 1;
                    assert(a@.take(i as int) == a@.take(i - 1).push(a@[i - 1]));
                }
                assert(a@.take(16) == a@);
            },
        }
        r
    }
}


// ───────────────────────── parsing ─────────────────────────

pub open spec fn is_hex(c: char) -> bool {
    ('0' <= c && c <= '9') || ('a' <= c && c <= 'f') || ('A' <= c && c <= 'F')
}

pub open spec fn hex_val(c: char) -> int {
    if '0' <= c && c <= '9' {
        c as int - '0' as int
    } else if 'a' <= c && c <= 'f' {
        c as int - 'a' as int + 10
    } else {
        c as int - 'A' as int + 10
    }
}

/// The number that a string of hex digits denotes.
pub open spec fn hex_value(s: Seq<char>) -> nat
    decreases s.len(),
{
    if s.len() == 0 {
        0
    } else {
        (hex_value(s.drop_last()) * 16 + hex_val(s.last())) as nat
    }
}

/// One group of an IPv6 address: one to four hex digits.
pub open spec fn hex_group(f: Seq<char>) -> Option<u16> {
    if 1 <= f.len() <= 4 && (forall|i: int| 0 <= i < f.len() ==> is_hex(#[trigger] f[i])) {
        Some(hex_value(f) as u16)
    } else {
        None
    }
}

/// One octet of an IPv4 address: one to three decimal digits, no leading
/// zero, at most 255.
pub open spec fn v4_octet(f: Seq<char>) -> Option<u8> {
    if 1 <= f.len() <= 3 && all_digits(f) && (f.len() == 1 || f[0] != '0') && digits_value(f) <= 255 {
        Some(digits_value(f) as u8)
    } else {
        None
    }
}

/// `Ipv4Addr::from_str`: four octets separated by dots.
pub open spec fn parse_v4(s: Seq<char>) -> Option<Seq<u8>> {
    let f = split_by(s, Sep::One('.').pred());
    if f.len() == 4 && v4_octet(f[0]) is Some && v4_octet(f[1]) is Some && v4_octet(f[2]) is Some && v4_octet(
        f[3],
    ) is Some {
        Some(seq![v4_octet(f[0]).unwrap(), v4_octet(f[1]).unwrap(), v4_octet(f[2]).unwrap(), v4_octet(f[3]).unwrap()])
    } else {
        None
    }
}

/// The groups that hex fields denote, when every field is a group.
pub open spec fn hex_groups(fields: Seq<Seq<char>>) -> Option<Seq<u16>>
    decreases fields.len(),
{
    if fields.len() == 0 {
        Some(Seq::empty())
    } else {
        match (hex_groups(fields.drop_last()), hex_group(fields.last())) {
            (Some(g), Some(x)) => Some(g.push(x)),
            _ => None,
        }
    }
}

/// The two groups an embedded IPv4 address stands for.
pub open spec fn v4_groups(o: Seq<u8>) -> Seq<u16> {
    seq![(o[0] * 256 + o[1]) as u16, (o[2] * 256 + o[3]) as u16]
}

/// A run of colon-separated groups; the last may be an embedded IPv4
/// address (two groups) when `allow_v4`. The empty text is no group.
pub open spec fn group_run(part: Seq<char>, allow_v4: bool) -> Option<Seq<u16>> {
    if part.len() == 0 {
        Some(Seq::empty())
    } else {
        let fields = split_by(part, Sep::One(':').pred());
        match hex_groups(fields.drop_last()) {
            Some(g) => match hex_group(fields.last()) {
                Some(x) => Some(g.push(x)),
                None => if allow_v4 {
                    match parse_v4(fields.last()) {
                        Some(o) => Some(g + v4_groups(o)),
                        None => None,
                    }
                } else {
                    None
                },
            },
            None => None,
        }
    }
}

/// `::` stands at position `i` of `s`.
pub open spec fn gap_at(s: Seq<char>, i: int) -> bool {
    0 <= i && i + 1 < s.len() && s[i] == ':' && s[i + 1] == ':'
}

/// The first position of `::` in `s`.
pub open spec fn is_first_gap(s: Seq<char>, i: int) -> bool {
    &&& gap_at(s, i)
    &&& forall|j: int| 0 <= j < i ==> !#[trigger] gap_at(s, j)
}

/// `Ipv6Addr::from_str`, as its eight groups: eight groups, or groups
/// before and after one `::` that stands for at least one zero group; only
/// the last groups may be written as an IPv4 address.
pub open spec fn parse_v6(s: Seq<char>) -> Option<Seq<u16>> {
    if exists|i: int| is_first_gap(s, i) {
        let i = choose|i: int| is_first_gap(s, i);
        match (group_run(s.take(i), false), group_run(s.skip(i + 2), true)) {
            (Some(h), Some(t)) => if h.len() + t.len() <= 7 {
                Some(h + Seq::new((8 - h.len() - t.len()) as nat, |k: int| 0u16) + t)
            } else {
                None
            },
            _ => None,
        }
    } else {
        match group_run(s, true) {
            Some(g) => if g.len() == 8 {
                Some(g)
            } else {
                None
            },
            None => None,
        }
    }
}

/// The sixteen octets of eight groups, high byte first.
pub open spec fn group_octets(g: Seq<u16>) -> Seq<u8> {
    Seq::new(16, |k: int| if k % 2 == 0 { (g[k / 2] / 256) as u8 } else { (g[k / 2] % 256) as u8 })
}

/// `IpAddr::from_str`: an IPv4 address, else an IPv6 address, by octets.
pub open spec fn parse_ip_text(s: Seq<char>) -> Option<Seq<u8>> {
    match parse_v4(s) {
        Some(o) => Some(o),
        None => match parse_v6(s) {
            Some(g) => Some(group_octets(g)),
            None => None,
        },
    }
}

/// Loopback (`127.0.0.0/8`, `::1`) or unspecified (`0.0.0.0`, `::`), by
/// octets.
pub open spec fn local_or_unspecified(o: Seq<u8>) -> bool {
    if o.len() == 4 {
        o[0] == 127 || (o[0] == 0 && o[1] == 0 && o[2] == 0 && o[3] == 0)
    } else {
        (forall|k: int| 0 <= k < 15 ==> #[trigger] o[k] == 0u8) && (o[15] == 0 || o[15] == 1)
    }
}

fn hex_val_of(c: char) -> (r: Option<u32>)
    ensures
        r matches Some(v) ==> is_hex(c) && v == hex_val(c),
        r is None ==> !is_hex(c),
{
    if '0' <= c && c <= '9' {
        Some((c as u32) - ('0' as u32))
    } else if 'a' <= c && c <= 'f' {
        Some((c as u32) - ('a' as u32) + 10)
    } else if 'A' <= c && c <= 'F' {
        Some((c as u32) - ('A' as u32) + 10)
    } else {
        None
    }
}

fn hex_group_of(f: &[char]) -> (r: Option<u16>)
    ensures
        r == hex_group(f@),
{
    if f.len() == 0 || f.len() > 4 {
        return None;
    }
    let mut v: u32 = 0;
    let mut i: usize = 0;
    while i < f.len()
        invariant
            1 <= f.len() <= 4,
            i <= f.len(),
            v == hex_value(f@.take(i as int)),
            v < 16 * 16 * 16 * 16,
            i <= 3 ==> v < 16 * 16 * 16,
            i <= 2 ==> v < 16 * 16,
            i <= 1 ==> v < 16,
            i == 0 ==> v == 0,
            forall|k: int| 0 <= k < i ==> is_hex(#[trigger] f@[k]),
        decreases f.len() - i,
    {
        assert(f@.take(i + 1).drop_last() == f@.take(i as int));
        match hex_val_of(f[i]) {
            Some(d) => {
                v = v * 16 + d;
            },
            None => {
                return None;
            },
        }
        i += 1;
    }
    assert(f@.take(f.len() as int) == f@);
    Some(v as u16)
}

fn v4_octet_of(f: &[char]) -> (r: Option<u8>)
    ensures
        r == v4_octet(f@),
{
    if f.len() == 0 || f.len() > 3 {
        return None;
    }
    if f.len() > 1 && f[0] == '0' {
        return None;
    }
    let mut v: u32 = 0;
    let mut i: usize = 0;
    while i < f.len()
        invariant
            1 <= f.len() <= 3,
            i <= f.len(),
            v == digits_value(f@.take(i as int)),
            v < 1000,
            i <= 2 ==> v < 100,
            i <= 1 ==> v < 10,
            i == 0 ==> v == 0,
            forall|k: int| 0 <= k < i ==> is_digit(#[trigger] f@[k]),
        decreases f.len() - i,
    {
        assert(f@.take(i + 1).drop_last() == f@.take(i as int));
        let c = f[i];
        if !('0' <= c && c <= '9') {
            return None;
        }
        v = v * 10 + ((c as u32) - ('0' as u32));
        i += 1;
    }
    assert(f@.take(f.len() as int) == f@);
    if v > 255 {
        return None;
    }
    Some(v as u8)
}

fn parse_v4_of(s: &[char]) -> (r: Option<Vec<u8>>)
    ensures
        r matches Some(o) ==> parse_v4(s@) == Some(o@),
        r is None ==> parse_v4(s@) is None,
{
    let f = split(s, &Sep::One('.'));
    let ghost fv = views(f@);
    if f.len() != 4 {
        return None;
    }
    let a = match v4_octet_of(f[0].as_slice()) {
        Some(x) => x,
        None => return None,
    };
    let b = match v4_octet_of(f[1].as_slice()) {
        Some(x) => x,
        None => return None,
    };
    let c = match v4_octet_of(f[2].as_slice()) {
        Some(x) => x,
        None => return None,
    };
    let d = match v4_octet_of(f[3].as_slice()) {
        Some(x) => x,
        None => return None,
    };
    assert(fv[0] == f@[0]@ && fv[1] == f@[1]@ && fv[2] == f@[2]@ && fv[3] == f@[3]@);
    let r = vec![a, b, c, d];
    assert(r@ =~= seq![a, b, c, d]);
    Some(r)
}

fn group_run_of(part: &[char], allow_v4: bool) -> (r: Option<Vec<u16>>)
    ensures
        r matches Some(g) ==> group_run(part@, allow_v4) == Some(g@),
        r is None ==> group_run(part@, allow_v4) is None,
{
    let mut out: Vec<u16> = Vec::new();
    if part.len() == 0 {
        return Some(out);
    }
    let fields = split(part, &Sep::One(':'));
    let ghost fv = views(fields@);
    proof {
        crate::text::lemma_split_by_nonempty(part@, Sep::One(':').pred());
    }
    let n = fields.len();
    let mut i: usize = 0;
    while i + 1 < n
        invariant
            fv == views(fields@),
            fv == split_by(part@, Sep::One(':').pred()),
            n == fields.len(),
            n >= 1,
            i + 1 <= n,
            hex_groups(fv.take(i as int)) == Some(out@),
        decreases n - i,
    {
        assert(fv.take(i + 1).drop_last() == fv.take(i as int));
        assert(fv.take(i + 1).last() == fields@[i as int]@);
        match hex_group_of(fields[i].as_slice()) {
            Some(x) => out.push(x),
            None => {
                assert(hex_groups(fv.take(i + 1)) is None);
                assert(fv.drop_last().take(i + 1) == fv.take(i + 1));
                proof {
                    lemma_hex_groups_prefix(fv.drop_last(), i + 1);
                }
                return None;
            },
        }
        i += 1;
    }
    assert(fv.take(n - 1) == fv.drop_last());
    let last = fields[n - 1].as_slice();
    assert(fv.last() == last@);
    match hex_group_of(last) {
        Some(x) => {
            out.push(x);
            Some(out)
        },
        None => {
            if allow_v4 {
                match parse_v4_of(last) {
                    Some(o) => {
                        let g1 = ((o[0] as u32) * 256 + (o[1] as u32)) as u16;
                        let g2 = ((o[2] as u32) * 256 + (o[3] as u32)) as u16;
                        let ghost before = out@;
                        out.push(g1);
                        out.push(g2);
                        assert(out@ =~= before + v4_groups(o@));
                        Some(out)
                    },
                    None => None,
                }
            } else {
                None
            }
        },
    }
}

/// When some prefix has a field that is no group, so does the whole.
proof fn lemma_hex_groups_prefix(fields: Seq<Seq<char>>, k: int)
    requires
        0 <= k <= fields.len(),
        hex_groups(fields.take(k)) is None,
    ensures
        hex_groups(fields) is None,
    decreases fields.len() - k,
{
    if k < fields.len() {
        assert(fields.take(k + 1).drop_last() == fields.take(k));
        lemma_hex_groups_prefix(fields, k + 1);
    } else {
        assert(fields.take(k) == fields);
    }
}

fn first_gap(s: &[char]) -> (r: Option<usize>)
    ensures
        r matches Some(i) ==> is_first_gap(s@, i as int),
        r is None ==> !exists|i: int| is_first_gap(s@, i),
{
    let mut i: usize = 0;
    while s.len() > 1 && i < s.len() - 1
        invariant
            i <= s.len(),
            forall|j: int| 0 <= j < i ==> !#[trigger] gap_at(s@, j),
        decreases s.len() - i,
    {
        if s[i] == ':' && s[i + 1] == ':' {
            return Some(i);
        }
        i += 1;
    }
    None
}

fn parse_v6_of(s: &[char]) -> (r: Option<Vec<u16>>)
    ensures
        r matches Some(g) ==> parse_v6(s@) == Some(g@),
        r is None ==> parse_v6(s@) is None,
{
    match first_gap(s) {
        Some(i) => {
            proof {
                assert forall|j: int| is_first_gap(s@, j) implies j == i by {
                    if j < i {
                        assert(!gap_at(s@, j));
                    } else if j > i {
                        assert(!gap_at(s@, i as int));
                    }
                }
            }
            assert(gap_at(s@, i as int));
            let n = s.len();
            assert(i + 2 <= n);
            let after = i + 2;
            let head = crate::text::slice_copy(s, 0, i);
            let tail = crate::text::slice_copy(s, after, s.len());
            assert(head@ == s@.take(i as int));
            assert(tail@ == s@.skip(i + 2));
            let h = match group_run_of(head.as_slice(), false) {
                Some(h) => h,
                None => return None,
            };
            let t = match group_run_of(tail.as_slice(), true) {
                Some(t) => t,
                None => return None,
            };
            if h.len() > 7 || t.len() > 7 - h.len() {
                return None;
            }
            let mut out = h;
            let zeros = 8 - out.len() - t.len();
            let ghost hv = out@;
            let mut k: usize = 0;
            while k < zeros
                invariant
                    k <= zeros,
                    out@ == hv + Seq::new(k as nat, |q: int| 0u16),
                decreases zeros - k,
            {
                out.push(0);
                k += 1;
                assert(out@ =~= hv + Seq::new(k as nat, |q: int| 0u16));
            }
            let mut j: usize = 0;
            let ghost mid = out@;
            while j < t.len()
                invariant
                    j <= t.len(),
                    out@ == mid + t@.take(j as int),
                decreases t.len() - j,
            {
                out.push(t[j]);
                j += 1;
                assert(out@ =~= mid + t@.take(j as int));
            }
            assert(t@.take(t.len() as int) == t@);
            Some(out)
        },
        None => {
            match group_run_of(s, true) {
                Some(g) => if g.len() == 8 {
                    Some(g)
                } else {
                    None
                },
                None => None,
            }
        },
    }
}

/// `IpAddr::from_str`: a dotted IPv4 address, else an IPv6 address.
pub fn parse_ip(s: &str) -> (r: Option<IpAddress>)
    ensures
        r matches Some(a) ==> parse_ip_text(s@) == Some(a.octets_spec()),
        r is None ==> parse_ip_text(s@) is None,
{
    let cs = crate::text::chars_of(s);
    match parse_v4_of(cs.as_slice()) {
        Some(o) => {
            let a = [o[0], o[1], o[2], o[3]];
            assert(a@ =~= o@);
            return Some(IpAddress::V4(a));
        },
        None => {},
    }
    match parse_v6_of(cs.as_slice()) {
        Some(g) => {
            let mut o: Vec<u8> = Vec::new();
            let mut k: usize = 0;
            while k < 8
                invariant
                    g@.len() == 8,
                    k <= 8,
                    o@.len() == 2 * k,
                    forall|q: int| 0 <= q < 2 * k ==> #[trigger] o@[q] == group_octets(g@)[q],
                decreases 8 - k,
            {
                o.push((g[k] / 256) as u8);
                o.push((g[k] % 256) as u8);
                k += 1;
            }
            let a = [o[0], o[1], o[2], o[3], o[4], o[5], o[6], o[7], o[8], o[9], o[10], o[11], o[12], o[13], o[14], o[15]];
            assert(a@ =~= group_octets(g@));
            Some(IpAddress::V6(a))
        },
        None => None,
    }
}

impl IpAddress {
    /// `is_loopback() || is_unspecified()`.
    pub fn is_local_or_unspecified(&self) -> (r: bool)
        ensures
            r == local_or_unspecified(self.octets_spec()),
    {
        match self {
            IpAddress::V4(a) => {
                assert(a@.len() == 4);
                let r = a[0] == 127 || (a[0] == 0 && a[1] == 0 && a[2] == 0 && a[3] == 0);
                assert(r == local_or_unspecified(a@));
                r
            },
            IpAddress::V6(a) => {
                assert(a@.len() == 16);
                let mut k: usize = 0;
                while k < 15
                    invariant
                        k <= 15,
                        self.octets_spec() == a@,
                        a@.len() == 16,
                        forall|q: int| 0 <= q < k ==> #[trigger] a@[q] == 0u8,
                    decreases 15 - k,
                {
                    if a[k] != 0 {
                        assert(a@[k as int] != 0u8);
                        return false;
                    }
                    k += 1;
                }
                let r = a[15] == 0 || a[15] == 1;
                assert(r == local_or_unspecified(a@));
                r
            },
        }
    }
}


// ───────────────────────── advertised addresses ─────────────────────────

/// `s` without its leading `c`s (`trim_start_matches`).
pub open spec fn trim_start_char(s: Seq<char>, c: char) -> Seq<char>
    decreases s.len(),
{
    if s.len() > 0 && s[0] == c {
        trim_start_char(s.drop_first(), c)
    } else {
        s
    }
}

/// `s` without its trailing `c`s (`trim_end_matches`).
pub open spec fn trim_end_char(s: Seq<char>, c: char) -> Seq<char>
    decreases s.len(),
{
    if s.len() > 0 && s.last() == c {
        trim_end_char(s.drop_last(), c)
    } else {
        s
    }
}

/// A host a node cannot be reached at: a wildcard or loopback address, or
/// `localhost`.
pub open spec fn needs_peer(host: Seq<char>) -> bool {
    ||| host == "0.0.0.0"@
    ||| host == "::"@
    ||| host == "127.0.0.1"@
    ||| host == "localhost"@
    ||| match parse_ip_text(host) {
        Some(o) => local_or_unspecified(o),
        None => false,
    }
}

/// The address a node is reached at, from the one it advertises and the
/// address (as text) its connection comes from: a host that cannot be
/// reached is replaced by the peer's address (in brackets for IPv6), the
/// port kept; an address with another host is kept as it was advertised.
/// Nothing when the node advertises nothing, or no valid port, or when a
/// needed peer address is unknown.
pub open spec fn advertised_addr(adv: Seq<char>, peer: Option<Seq<char>>) -> Option<Seq<char>> {
    if adv.len() == 0 {
        None
    } else {
        match rsplit_once(adv, ':') {
            None => None,
            Some((h, port)) => {
                let host = trim_end_char(trim_start_char(h, '['), ']');
                if parse_unsigned(port, 65535) is None {
                    None
                } else if needs_peer(host) {
                    match peer {
                        None => None,
                        Some(p) => Some(
                            if p.contains(':') {
                                "["@ + p + "]:"@ + port
                            } else {
                                p + ":"@ + port
                            },
                        ),
                    }
                } else {
                    Some(adv)
                }
            },
        }
    }
}

fn trim_brackets(h: &[char]) -> (r: Vec<char>)
    ensures
        r@ == trim_end_char(trim_start_char(h@, '['), ']'),
{
    let mut lo: usize = 0;
    assert(h@.skip(0) =~= h@);
    while lo < h.len() && h[lo] == '['
        invariant
            lo <= h.len(),
            trim_start_char(h@, '[') == trim_start_char(h@.skip(lo as int), '['),
        decreases h.len() - lo,
    {
        assert(h@.skip(lo as int).drop_first() == h@.skip(lo + 1));
        lo += 1;
    }
    let mut hi: usize = h.len();
    assert(h@.skip(lo as int) == h@.subrange(lo as int, hi as int));
    if lo < h.len() {
        assert(h@.skip(lo as int)[0] == h@[lo as int]);
    }
    assert(trim_start_char(h@.skip(lo as int), '[') == h@.skip(lo as int));
    while hi > lo && h[hi - 1] == ']'
        invariant
            lo <= hi <= h.len(),
            trim_start_char(h@, '[') == h@.skip(lo as int),
            trim_end_char(h@.skip(lo as int), ']') == trim_end_char(h@.subrange(lo as int, hi as int), ']'),
        decreases hi - lo,
    {
        assert(h@.subrange(lo as int, hi as int).drop_last() == h@.subrange(lo as int, hi - 1));
        hi -= 1;
    }
    crate::text::slice_copy(h, lo, hi)
}

fn has_colon(p: &[char]) -> (r: bool)
    ensures
        r == p@.contains(':'),
{
    let mut i: usize = 0;
    while i < p.len()
        invariant
            i <= p.len(),
            forall|k: int| 0 <= k < i ==> p@[k] != ':',
        decreases p.len() - i,
    {
        if p[i] == ':' {
            assert(p@[i as int] == ':');
            return true;
        }
        i += 1;
    }
    false
}

fn needs_peer_of(host: &[char]) -> (r: bool)
    ensures
        r == needs_peer(host@),
{
    if crate::text::is_lit(host, "0.0.0.0") || crate::text::is_lit(host, "::") || crate::text::is_lit(host, "127.0.0.1")
        || crate::text::is_lit(host, "localhost") {
        return true;
    }
    let t = crate::text::string_of(host);
    match parse_ip(t.as_str()) {
        Some(a) => a.is_local_or_unspecified(),
        None => false,
    }
}

/// The address a node is reached at, from the one it advertises and the
/// address its connection comes from (`peer_ip`, as text).
pub fn resolve_advertised_addr(advertised: &str, peer_ip: Option<&str>) -> (r: Option<String>)
    ensures
        r matches Some(s) ==> advertised_addr(advertised@, match peer_ip {
            Some(p) => Some(p@),
            None => None,
        }) == Some(s@),
        r is None ==> advertised_addr(advertised@, match peer_ip {
            Some(p) => Some(p@),
            None => None,
        }) is None,
{
    let adv = crate::text::chars_of(advertised);
    if adv.len() == 0 {
        return None;
    }
    let (h, port) = match crate::text::rsplit_once_chars(adv.as_slice(), ':') {
        Some(p) => p,
        None => return None,
    };
    let host = trim_brackets(h.as_slice());
    if crate::text::parse_unsigned_chars(port.as_slice(), 65535).is_none() {
        return None;
    }
    if needs_peer_of(host.as_slice()) {
        match peer_ip {
            None => None,
            Some(p) => {
                let pc = crate::text::chars_of(p);
                let mut out: Vec<char> = Vec::new();
                if has_colon(pc.as_slice()) {
                    out.push('[');
                    crate::text::push_all(&mut out, pc.as_slice());
                    out.push(']');
                    out.push(':');
                    crate::text::push_all(&mut out, port.as_slice());
                    assert(out@ =~= "["@ + p@ + "]:"@ + port@) by {
                        reveal_strlit("[");
                        reveal_strlit("]:");
                    }
                } else {
                    crate::text::push_all(&mut out, pc.as_slice());
                    out.push(':');
                    crate::text::push_all(&mut out, port.as_slice());
                    assert(out@ =~= p@ + ":"@ + port@) by {
                        reveal_strlit(":");
                    }
                }
                Some(crate::text::string_of(out.as_slice()))
            },
        }
    } else {
        Some(crate::text::string_of(adv.as_slice()))
    }
}


/// The address a client's text names, or `0.0.0.0` when it names none
/// (`parse().unwrap_or(Ipv4Addr::UNSPECIFIED)`).
pub fn ip_or_unspecified(s: &str) -> (r: IpAddress)
    ensures
        r.octets_spec() == match parse_ip_text(s@) {
            Some(o) => o,
            None => seq![0u8, 0u8, 0u8, 0u8],
        },
{
    match parse_ip(s) {
        Some(a) => a,
        None => {
            let a = [0u8, 0u8, 0u8, 0u8];
            assert(a@ =~= seq![0u8, 0u8, 0u8, 0u8]);
            IpAddress::V4(a)
        },
    }
}

} // verus!
