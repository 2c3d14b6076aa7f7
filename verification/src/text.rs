//! Character-level text handling shared by the parsers of the library:
//! trimming, splitting, prefix stripping, decimal parsing and formatting.
//! Every operation is stated over `Seq<char>`, the view of `str` and `String`.
use vstd::prelude::*;

verus! {

// ───────────────────────── specifications ─────────────────────────

/// Unicode `White_Space`, the set that `char::is_whitespace` (and so
/// `str::trim` and `str::split_whitespace`) uses.
pub open spec fn is_ws(c: char) -> bool {
    ||| ('\u{9}' <= c && c <= '\u{d}')
    ||| c == ' '
    ||| c == '\u{85}'
    ||| c == '\u{a0}'
    ||| c == '\u{1680}'
    ||| ('\u{2000}' <= c && c <= '\u{200a}')
    ||| c == '\u{2028}'
    ||| c == '\u{2029}'
    ||| c == '\u{202f}'
    ||| c == '\u{205f}'
    ||| c == '\u{3000}'
}

pub open spec fn is_digit(c: char) -> bool {
    '0' <= c && c <= '9'
}

pub open spec fn digit_val(c: char) -> int {
    (c as int) - ('0' as int)
}

/// The digit character for a value below ten.
pub open spec fn digit_char(d: int) -> char {
    (d + ('0' as int)) as char
}

/// `s` without its leading white space.
pub open spec fn trim_start(s: Seq<char>) -> Seq<char>
    decreases s.len(),
{
    if s.len() > 0 && is_ws(s[0]) {
        trim_start(s.drop_first())
    } else {
        s
    }
}

/// `s` without its trailing white space.
pub open spec fn trim_end(s: Seq<char>) -> Seq<char>
    decreases s.len(),
{
    if s.len() > 0 && is_ws(s.last()) {
        trim_end(s.drop_last())
    } else {
        s
    }
}

/// `str::trim`.
pub open spec fn trim(s: Seq<char>) -> Seq<char> {
    trim_end(trim_start(s))
}

/// The pieces of `s` between the characters for which `sep` holds, as
/// `str::split` yields them: one more piece than there are separators,
/// empty pieces included.
pub open spec fn split_by(s: Seq<char>, sep: spec_fn(char) -> bool) -> Seq<Seq<char>>
    decreases s.len(),
{
    if s.len() == 0 {
        seq![Seq::<char>::empty()]
    } else {
        let init = split_by(s.drop_last(), sep);
        if sep(s.last()) {
            init.push(Seq::<char>::empty())
        } else {
            init.update(init.len() - 1, init.last().push(s.last()))
        }
    }
}

/// The character views of a sequence of character vectors.
pub open spec fn views(v: Seq<Vec<char>>) -> Seq<Seq<char>> {
    v.map_values(|x: Vec<char>| x@)
}

pub open spec fn nonempty() -> spec_fn(Seq<char>) -> bool {
    |p: Seq<char>| p.len() > 0
}

/// The non-empty pieces of `s` between separators (`str::split_whitespace`
/// when `sep` is `is_ws`).
pub open spec fn tokens(s: Seq<char>, sep: spec_fn(char) -> bool) -> Seq<Seq<char>> {
    split_by(s, sep).filter(nonempty())
}

pub open spec fn ws_pred() -> spec_fn(char) -> bool {
    |c: char| is_ws(c)
}

pub open spec fn char_pred(x: char) -> spec_fn(char) -> bool {
    |c: char| c == x
}

/// `s` with its prefix `p` removed, when `s` starts with `p`.
pub open spec fn strip_prefix(s: Seq<char>, p: Seq<char>) -> Option<Seq<char>> {
    if p.len() <= s.len() && s.take(p.len() as int) == p {
        Some(s.skip(p.len() as int))
    } else {
        None
    }
}

/// Whether `i` is the index of the last `c` in `s`.
pub open spec fn is_last_index_of(s: Seq<char>, c: char, i: int) -> bool {
    &&& 0 <= i < s.len()
    &&& s[i] == c
    &&& forall|j: int| i < j < s.len() ==> s[j] != c
}

/// Whether `i` is the index of the first `c` in `s`.
pub open spec fn is_first_index_of(s: Seq<char>, c: char, i: int) -> bool {
    &&& 0 <= i < s.len()
    &&& s[i] == c
    &&& forall|j: int| 0 <= j < i ==> s[j] != c
}

/// `str::rsplit_once(c)`: the text before and after the last `c`.
pub open spec fn rsplit_once(s: Seq<char>, c: char) -> Option<(Seq<char>, Seq<char>)> {
    if exists|i: int| is_last_index_of(s, c, i) {
        let i = choose|i: int| is_last_index_of(s, c, i);
        Some((s.take(i), s.skip(i + 1)))
    } else {
        None
    }
}

/// `str::split_once(c)`: the text before and after the first `c`.
pub open spec fn split_once(s: Seq<char>, c: char) -> Option<(Seq<char>, Seq<char>)> {
    if exists|i: int| is_first_index_of(s, c, i) {
        let i = choose|i: int| is_first_index_of(s, c, i);
        Some((s.take(i), s.skip(i + 1)))
    } else {
        None
    }
}

pub open spec fn all_digits(s: Seq<char>) -> bool {
    forall|i: int| 0 <= i < s.len() ==> is_digit(#[trigger] s[i])
}

/// The number that a string of decimal digits denotes.
pub open spec fn digits_value(s: Seq<char>) -> nat
    decreases s.len(),
{
    if s.len() == 0 {
        0
    } else {
        (digits_value(s.drop_last()) * 10 + digit_val(s.last())) as nat
    }
}

/// The digits that an unsigned `from_str` reads: one leading `+` is dropped.
pub open spec fn unsigned_digits(s: Seq<char>) -> Seq<char> {
    if s.len() > 0 && s[0] == '+' {
        s.drop_first()
    } else {
        s
    }
}

/// `from_str` of an unsigned integer type whose largest value is `max`:
/// an optional `+`, then one or more decimal digits, with a value up to `max`.
pub open spec fn parse_unsigned(s: Seq<char>, max: nat) -> Option<nat> {
    let d = unsigned_digits(s);
    if d.len() > 0 && all_digits(d) && digits_value(d) <= max {
        Some(digits_value(d))
    } else {
        None
    }
}

/// The decimal text of `n`, as `Display` writes it.
pub open spec fn dec(n: nat) -> Seq<char>
    decreases n,
{
    if n < 10 {
        seq![digit_char(n as int)]
    } else {
        dec(n / 10).push(digit_char((n % 10) as int))
    }
}

/// The decimal text of a signed `n`, as `Display` writes it.
pub open spec fn dec_signed(n: int) -> Seq<char> {
    if n < 0 {
        seq!['-'] + dec((-n) as nat)
    } else {
        dec(n as nat)
    }
}

pub open spec fn lower_ascii(c: char) -> char {
    if 'A' <= c && c <= 'Z' {
        ((c as int) + 32) as char
    } else {
        c
    }
}

/// `str::to_ascii_lowercase`.
pub open spec fn to_ascii_lower(s: Seq<char>) -> Seq<char> {
    Seq::new(s.len(), |i: int| lower_ascii(s[i]))
}

/// `str::eq_ignore_ascii_case`.
pub open spec fn eq_ignore_case(a: Seq<char>, b: Seq<char>) -> bool {
    to_ascii_lower(a) == to_ascii_lower(b)
}

// ───────────────────────── lemmas ─────────────────────────

proof fn lemma_lower_ws(c: char)
    ensures
        is_ws(lower_ascii(c)) == is_ws(c),
{
    if 'A' <= c && c <= 'Z' {
        assert('a' <= lower_ascii(c) && lower_ascii(c) <= 'z');
    }
}

/// Lower-casing and dropping leading white space commute.
pub proof fn lemma_lower_trim_start(s: Seq<char>)
    ensures
        to_ascii_lower(trim_start(s)) == trim_start(to_ascii_lower(s)),
    decreases s.len(),
{
    let l = to_ascii_lower(s);
    if s.len() > 0 {
        lemma_lower_ws(s[0]);
        assert(l[0] == lower_ascii(s[0]));
        if is_ws(s[0]) {
            assert(l.drop_first() =~= to_ascii_lower(s.drop_first()));
            lemma_lower_trim_start(s.drop_first());
        }
    }
}

/// Lower-casing and dropping trailing white space commute.
pub proof fn lemma_lower_trim_end(s: Seq<char>)
    ensures
        to_ascii_lower(trim_end(s)) == trim_end(to_ascii_lower(s)),
    decreases s.len(),
{
    let l = to_ascii_lower(s);
    if s.len() > 0 {
        lemma_lower_ws(s.last());
        assert(l.last() == lower_ascii(s.last()));
        if is_ws(s.last()) {
            assert(l.drop_last() =~= to_ascii_lower(s.drop_last()));
            lemma_lower_trim_end(s.drop_last());
        }
    }
}

/// Lower-casing and trimming commute, and lower-casing twice is lower-casing once.
pub proof fn lemma_lower_trim(s: Seq<char>)
    ensures
        to_ascii_lower(trim(s)) == trim(to_ascii_lower(s)),
        to_ascii_lower(to_ascii_lower(s)) == to_ascii_lower(s),
{
    lemma_lower_trim_start(s);
    lemma_lower_trim_end(trim_start(s));
    let l = to_ascii_lower(s);
    assert forall|i: int| 0 <= i < l.len() implies lower_ascii(#[trigger] l[i]) == l[i] by {
        let c = s[i];
        if 'A' <= c && c <= 'Z' {
            assert('a' <= l[i] && l[i] <= 'z');
        }
    }
    assert(to_ascii_lower(l) =~= l);
}

proof fn lemma_trim_start_skip(s: Seq<char>, i: int)
    requires
        0 <= i <= s.len(),
        forall|j: int| 0 <= j < i ==> is_ws(#[trigger] s[j]),
    ensures
        trim_start(s) == trim_start(s.skip(i)),
    decreases i,
{
    if i > 0 {
        assert(s.skip(1) == s.drop_first());
        lemma_trim_start_skip(s.drop_first(), i - 1);
        assert(s.drop_first().skip(i - 1) == s.skip(i));
    } else {
        assert(s.skip(0) == s);
    }
}

proof fn lemma_trim_end_take(s: Seq<char>, i: int)
    requires
        0 <= i <= s.len(),
        forall|j: int| i <= j < s.len() ==> is_ws(#[trigger] s[j]),
    ensures
        trim_end(s) == trim_end(s.take(i)),
    decreases s.len() - i,
{
    if i < s.len() {
        assert(s.drop_last() == s.take(s.len() - 1));
        lemma_trim_end_take(s.drop_last(), i);
        assert(s.drop_last().take(i) == s.take(i));
    } else {
        assert(s.take(i) == s);
    }
}

proof fn lemma_digits_value_bound(s: Seq<char>)
    requires
        all_digits(s),
    ensures
        digits_value(s) >= digits_value(s.drop_last()) * 10 || s.len() == 0,
{
}

// ───────────────────────── conversions ─────────────────────────

/// The characters of `s`, in order.
pub fn chars_of(s: &str) -> (v: Vec<char>)
    ensures
        v@ == s@,
{
    let mut v: Vec<char> = Vec::new();
    for c in it: s.chars()
        invariant
            v@ == it.seq().take(it.index() as int),
            it.seq() == s@,
    {
        v.push(c);
    }
    v
}

/// `String::from_iter` over characters: the string whose characters are `cs`.
#[verifier::external_body]
pub fn string_of(cs: &[char]) -> (s: String)
    ensures
        s@ == cs@,
{
    String::from_iter(cs.iter())
}

/// Appends all of `src` to `dst`.
pub fn push_all(dst: &mut Vec<char>, src: &[char])
    ensures
        final(dst)@ == old(dst)@ + src@,
{
    let ghost start = dst@;
    let mut i: usize = 0;
    while i < src.len()
        invariant
            i <= src.len(),
            dst@ == start + src@.take(i as int),
        decreases src.len() - i,
    {
        dst.push(src[i]);
        i += 1;
        assert(src@.take(i as int) == src@.take(i - 1).push(src@[i - 1]));
    }
    assert(src@.take(src.len() as int) == src@);
}

/// `a@ == b@`, compared character by character.
pub fn eq_chars(a: &[char], b: &[char]) -> (r: bool)
    ensures
        r == (a@ == b@),
{
    if a.len() != b.len() {
        return false;
    }
    let mut i: usize = 0;
    while i < a.len()
        invariant
            a.len() == b.len(),
            i <= a.len(),
            forall|j: int| 0 <= j < i ==> a@[j] == b@[j],
        decreases a.len() - i,
    {
        if a[i] != b[i] {
            return false;
        }
        i += 1;
    }
    assert(a@ =~= b@);
    true
}

/// Whether `s` equals the literal `lit`.
pub fn is_lit(s: &[char], lit: &str) -> (r: bool)
    ensures
        r == (s@ == lit@),
{
    let l = chars_of(lit);
    eq_chars(s, l.as_slice())
}

// ───────────────────────── trimming ─────────────────────────

pub fn is_ws_char(c: char) -> (r: bool)
    ensures
        r == is_ws(c),
{
    ('\u{9}' <= c && c <= '\u{d}') || c == ' ' || c == '\u{85}' || c == '\u{a0}' || c == '\u{1680}'
        || ('\u{2000}' <= c && c <= '\u{200a}') || c == '\u{2028}' || c == '\u{2029}' || c
        == '\u{202f}' || c == '\u{205f}' || c == '\u{3000}'
}

/// The bounds of `trim(s)` inside `s`.
pub fn trim_bounds(s: &[char]) -> (r: (usize, usize))
    ensures
        r.0 <= r.1 <= s.len(),
        trim(s@) == s@.subrange(r.0 as int, r.1 as int),
{
    let mut lo: usize = 0;
    while lo < s.len() && is_ws_char(s[lo])
        invariant
            lo <= s.len(),
            forall|j: int| 0 <= j < lo ==> is_ws(#[trigger] s@[j]),
        decreases s.len() - lo,
    {
        lo += 1;
    }
    proof {
        lemma_trim_start_skip(s@, lo as int);
        if lo < s.len() {
            assert(trim_start(s@.skip(lo as int)) == s@.skip(lo as int));
        } else {
            assert(s@.skip(lo as int).len() == 0);
        }
    }
    let ghost t = s@.skip(lo as int);
    let mut hi: usize = s.len();
    while hi > lo && is_ws_char(s[hi - 1])
        invariant
            lo <= hi <= s.len(),
            forall|j: int| hi <= j < s.len() ==> is_ws(#[trigger] s@[j]),
        decreases hi,
    {
        hi -= 1;
    }
    proof {
        let k = hi - lo;
        assert forall|j: int| k <= j < t.len() implies is_ws(#[trigger] t[j]) by {
            assert(t[j] == s@[j + lo]);
        }
        lemma_trim_end_take(t, k as int);
        assert(t.take(k as int) == s@.subrange(lo as int, hi as int));
        if k > 0 {
            assert(t.take(k as int).last() == s@[hi - 1]);
        }
    }
    (lo, hi)
}

/// `str::trim`.
pub fn trim_chars(s: &[char]) -> (r: Vec<char>)
    ensures
        r@ == trim(s@),
{
    let (lo, hi) = trim_bounds(s);
    slice_copy(s, lo, hi)
}

/// A copy of `s[lo..hi]`.
pub fn slice_copy(s: &[char], lo: usize, hi: usize) -> (r: Vec<char>)
    requires
        lo <= hi <= s.len(),
    ensures
        r@ == s@.subrange(lo as int, hi as int),
{
    let mut r: Vec<char> = Vec::new();
    let mut i = lo;
    while i < hi
        invariant
            lo <= i <= hi <= s.len(),
            r@ == s@.subrange(lo as int, i as int),
        decreases hi - i,
    {
        r.push(s[i]);
        i += 1;
    }
    r
}

// ───────────────────────── splitting ─────────────────────────

/// The separators the library splits on.
pub enum Sep {
    /// One given character.
    One(char),
    /// Any of three given characters.
    AnyOf3(char, char, char),
    /// Unicode white space.
    Space,
    /// Anything but an ASCII digit.
    NonDigit,
}

impl Sep {
    pub open spec fn pred(self) -> spec_fn(char) -> bool {
        |c: char|
            match self {
                Sep::One(x) => c == x,
                Sep::AnyOf3(a, b, d) => c == a || c == b || c == d,
                Sep::Space => is_ws(c),
                Sep::NonDigit => !is_digit(c),
            }
    }

    pub fn matches(&self, c: char) -> (r: bool)
        ensures
            r == (self.pred())(c),
    {
        match self {
            Sep::One(x) => c == *x,
            Sep::AnyOf3(a, b, d) => c == *a || c == *b || c == *d,
            Sep::Space => is_ws_char(c),
            Sep::NonDigit => !('0' <= c && c <= '9'),
        }
    }
}

pub proof fn lemma_split_by_nonempty(s: Seq<char>, sep: spec_fn(char) -> bool)
    ensures
        split_by(s, sep).len() > 0,
    decreases s.len(),
{
    if s.len() > 0 {
        lemma_split_by_nonempty(s.drop_last(), sep);
    }
}

/// `str::split` on the separator `sep`, all pieces kept.
pub fn split(s: &[char], sep: &Sep) -> (r: Vec<Vec<char>>)
    ensures
        views(r@) == split_by(s@, sep.pred()),
{
    let mut done: Vec<Vec<char>> = Vec::new();
    let mut cur: Vec<char> = Vec::new();
    let mut i: usize = 0;
    while i < s.len()
        invariant
            i <= s.len(),
            views(done@).push(cur@) == split_by(s@.take(i as int), sep.pred()),
        decreases s.len() - i,
    {
        let c = s[i];
        proof {
            assert(s@.take(i + 1).drop_last() == s@.take(i as int));
            assert(s@.take(i + 1).last() == c);
            lemma_split_by_nonempty(s@.take(i as int), sep.pred());
        }
        if sep.matches(c) {
            let ghost before = views(done@);
            done.push(cur);
            cur = Vec::new();
            proof {
                assert(views(done@) =~= before.push(done@.last()@));
            }
        } else {
            cur.push(c);
        }
        i += 1;
        proof {
            let prev = split_by(s@.take(i - 1), sep.pred());
            assert(views(done@).push(cur@) =~= split_by(s@.take(i as int), sep.pred()));
        }
    }
    let ghost before = views(done@);
    done.push(cur);
    proof {
        assert(views(done@) =~= before.push(done@.last()@));
        assert(s@.take(s.len() as int) == s@);
    }
    done
}

/// `str::split` on `sep` with the empty pieces left out (`split_whitespace`
/// for `Sep::Space`).
pub fn split_tokens(s: &[char], sep: &Sep) -> (r: Vec<Vec<char>>)
    ensures
        views(r@) == tokens(s@, sep.pred()),
{
    let mut done: Vec<Vec<char>> = Vec::new();
    let mut cur: Vec<char> = Vec::new();
    let ghost mut pieces: Seq<Seq<char>> = Seq::empty();
    let mut i: usize = 0;
    while i < s.len()
        invariant
            i <= s.len(),
            pieces.push(cur@) == split_by(s@.take(i as int), sep.pred()),
            views(done@) == pieces.filter(nonempty()),
        decreases s.len() - i,
    {
        let c = s[i];
        proof {
            assert(s@.take(i + 1).drop_last() == s@.take(i as int));
            assert(s@.take(i + 1).last() == c);
        }
        if sep.matches(c) {
            proof {
                reveal(Seq::filter);
                assert(pieces.push(cur@).drop_last() == pieces);
            }
            if cur.len() > 0 {
                let ghost before = views(done@);
                done.push(cur);
                proof {
                    assert(views(done@) =~= before.push(done@.last()@));
                }
            }
            proof {
                pieces = pieces.push(cur@);
            }
            cur = Vec::new();
        } else {
            cur.push(c);
        }
        i += 1;
        proof {
            assert(pieces.push(cur@) =~= split_by(s@.take(i as int), sep.pred()));
        }
    }
    proof {
        reveal(Seq::filter);
        assert(pieces.push(cur@).drop_last() == pieces);
        assert(s@.take(s.len() as int) == s@);
    }
    if cur.len() > 0 {
        let ghost before = views(done@);
        done.push(cur);
        proof {
            assert(views(done@) =~= before.push(done@.last()@));
        }
    }
    done
}

/// `str::strip_prefix`.
pub fn strip_prefix_chars(s: &[char], p: &str) -> (r: Option<Vec<char>>)
    ensures
        r matches Some(v) ==> strip_prefix(s@, p@) == Some(v@),
        r is None ==> strip_prefix(s@, p@) is None,
{
    let pc = chars_of(p);
    if pc.len() > s.len() {
        return None;
    }
    let head = slice_copy(s, 0, pc.len());
    if eq_chars(head.as_slice(), pc.as_slice()) {
        proof {
            assert(s@.take(pc@.len() as int) == head@);
        }
        Some(slice_copy(s, pc.len(), s.len()))
    } else {
        proof {
            assert(s@.take(pc@.len() as int) == head@);
        }
        None
    }
}

/// `str::rsplit_once(c)`.
pub fn rsplit_once_chars(s: &[char], c: char) -> (r: Option<(Vec<char>, Vec<char>)>)
    ensures
        r matches Some(p) ==> rsplit_once(s@, c) == Some((p.0@, p.1@)),
        r is None ==> rsplit_once(s@, c) is None,
{
    let mut k: usize = s.len();
    while k > 0 && s[k - 1] != c
        invariant
            k <= s.len(),
            forall|j: int| k <= j < s.len() ==> s@[j] != c,
        decreases k,
    {
        k -= 1;
    }
    if k == 0 {
        proof {
            assert forall|i: int| !is_last_index_of(s@, c, i) by {
                if is_last_index_of(s@, c, i) {
                    assert(s@[i] == c);
                }
            }
        }
        None
    } else {
        let i = k - 1;
        proof {
            assert(is_last_index_of(s@, c, i as int));
            let i2 = choose|i2: int| is_last_index_of(s@, c, i2);
            assert(i2 == i as int);
        }
        Some((slice_copy(s, 0, i), slice_copy(s, i + 1, s.len())))
    }
}

/// `str::split_once(c)`.
pub fn split_once_chars(s: &[char], c: char) -> (r: Option<(Vec<char>, Vec<char>)>)
    ensures
        r matches Some(p) ==> split_once(s@, c) == Some((p.0@, p.1@)),
        r is None ==> split_once(s@, c) is None,
{
    let mut k: usize = 0;
    while k < s.len() && s[k] != c
        invariant
            k <= s.len(),
            forall|j: int| 0 <= j < k ==> s@[j] != c,
        decreases s.len() - k,
    {
        k += 1;
    }
    if k == s.len() {
        proof {
            assert forall|i: int| !is_first_index_of(s@, c, i) by {
                if is_first_index_of(s@, c, i) {
                    assert(s@[i] == c);
                }
            }
        }
        None
    } else {
        proof {
            assert(is_first_index_of(s@, c, k as int));
            let i2 = choose|i2: int| is_first_index_of(s@, c, i2);
            assert(i2 == k as int);
        }
        Some((slice_copy(s, 0, k), slice_copy(s, k + 1, s.len())))
    }
}

// ───────────────────────── numbers ─────────────────────────

/// `from_str` of a signed integer type whose largest value is `max` (and
/// smallest `-max - 1`): an optional `+` or `-`, then one or more decimal
/// digits, with a value in range.
pub open spec fn parse_signed(s: Seq<char>, max: nat) -> Option<int> {
    if s.len() > 0 && s[0] == '-' {
        let d = s.drop_first();
        if d.len() > 0 && all_digits(d) && digits_value(d) <= max + 1 {
            Some(-digits_value(d))
        } else {
            None
        }
    } else {
        match parse_unsigned(s, max) {
            Some(n) => Some(n as int),
            None => None,
        }
    }
}

/// `i64::from_str`.
pub fn parse_i64(s: &str) -> (r: Option<i64>)
    ensures
        r matches Some(v) ==> parse_signed(s@, i64::MAX as nat) == Some(v as int),
        r is None ==> parse_signed(s@, i64::MAX as nat) is None,
{
    let c = chars_of(s);
    if c.len() > 0 && c[0] == '-' {
        let d = slice_copy(c.as_slice(), 1, c.len());
        assert(d@ == c@.drop_first());
        if d.len() > 0 && d[0] == '+' {
            assert(!crate::text::is_digit(d@[0]));
            return None;
        }
        assert(unsigned_digits(d@) == d@);
        match parse_unsigned_chars(d.as_slice(), 9223372036854775808u64) {
            Some(v) => if v == 9223372036854775808u64 {
                Some(i64::MIN)
            } else {
                Some(-(v as i64))
            },
            None => None,
        }
    } else {
        match parse_unsigned_chars(c.as_slice(), 9223372036854775807u64) {
            Some(v) => Some(v as i64),
            None => None,
        }
    }
}

/// `from_str` for an unsigned type whose largest value is `max`.
pub fn parse_unsigned_chars(s: &[char], max: u64) -> (r: Option<u64>)
    ensures
        r matches Some(v) ==> parse_unsigned(s@, max as nat) == Some(v as nat),
        r is None ==> parse_unsigned(s@, max as nat) is None,
{
    let start: usize = if s.len() > 0 && s[0] == '+' { 1 } else { 0 };
    let ghost d = unsigned_digits(s@);
    proof {
        assert(d == s@.skip(start as int));
    }
    if start >= s.len() {
        return None;
    }
    let mut acc: u64 = 0;
    let mut i = start;
    while i < s.len()
        invariant
            start <= i <= s.len(),
            start < s.len(),
            d == s@.skip(start as int),
            d == unsigned_digits(s@),
            all_digits(d.take(i - start)),
            acc as nat == digits_value(d.take(i - start)),
            acc <= max,
        decreases s.len() - i,
    {
        let c = s[i];
        proof {
            assert(d.take(i - start + 1).drop_last() == d.take(i - start));
            assert(d.take(i - start + 1).last() == c);
        }
        if !('0' <= c && c <= '9') {
            proof {
                assert(d[(i - start) as int] == c);
                assert(!is_digit(d[(i - start) as int]));
                assert(!all_digits(d));
            }
            return None;
        }
        let v = (c as u32 - '0' as u32) as u64;
        if v > max || acc > (max - v) / 10 {
            proof {
                assert(digits_value(d.take(i - start + 1)) == acc * 10 + v);
                assert(acc * 10 + v > max) by (nonlinear_arith)
                    requires
                        v > max || acc > (max - v) / 10,
                        v <= 9,
                ;
                lemma_prefix_value_grows(d, i - start + 1);
            }
            return None;
        }
        proof {
            assert(acc * 10 + v <= max) by (nonlinear_arith)
                requires
                    acc <= (max - v) / 10,
                    v <= max,
            ;
        }
        acc = acc * 10 + v;
        i += 1;
        proof {
            assert forall|j: int| 0 <= j < i - start implies is_digit(#[trigger] d.take(i - start)[j]) by {
                if j < i - start - 1 {
                    assert(d.take(i - start)[j] == d.take(i - start - 1)[j]);
                }
            }
        }
    }
    proof {
        assert(d.take(s.len() - start) == d);
    }
    Some(acc)
}

/// Once a prefix of digits exceeds `max`, the whole does too.
proof fn lemma_prefix_value_grows(d: Seq<char>, k: int)
    requires
        0 <= k <= d.len(),
        all_digits(d.take(k)),
    ensures
        all_digits(d) ==> digits_value(d) >= digits_value(d.take(k)),
    decreases d.len() - k,
{
    if k < d.len() && all_digits(d) {
        assert(all_digits(d.take(k + 1)));
        lemma_prefix_value_grows(d, k + 1);
        assert(d.take(k + 1).drop_last() == d.take(k));
        assert(digits_value(d.take(k + 1)) >= digits_value(d.take(k)));
    } else if k == d.len() {
        assert(d.take(k) == d);
    }
}

/// The decimal text of `n`.
pub fn fmt_u64(n: u64) -> (r: Vec<char>)
    ensures
        r@ == dec(n as nat),
    decreases n,
{
    if n < 10 {
        let mut r: Vec<char> = Vec::new();
        r.push(((n as u8) + 48u8) as char);
        proof {
            assert(r@ =~= seq![digit_char(n as int)]);
        }
        r
    } else {
        let mut r = fmt_u64(n / 10);
        r.push((((n % 10) as u8) + 48u8) as char);
        r
    }
}

/// The decimal text of a signed `n`.
pub fn fmt_i64(n: i64) -> (r: Vec<char>)
    ensures
        r@ == dec_signed(n as int),
{
    if n < 0 {
        let m: u64 = if n == i64::MIN {
            9223372036854775808u64
        } else {
            (-n) as u64
        };
        let mut r: Vec<char> = Vec::new();
        r.push('-');
        let d = fmt_u64(m);
        push_all(&mut r, d.as_slice());
        proof {
            assert(r@ =~= seq!['-'] + dec((-n) as nat));
        }
        r
    } else {
        fmt_u64(n as u64)
    }
}

// ───────────────────────── case ─────────────────────────

/// `str::to_ascii_lowercase`.
pub fn lower_chars(s: &[char]) -> (r: Vec<char>)
    ensures
        r@ == to_ascii_lower(s@),
{
    let mut r: Vec<char> = Vec::new();
    let mut i: usize = 0;
    while i < s.len()
        invariant
            i <= s.len(),
            r@ == to_ascii_lower(s@).take(i as int),
        decreases s.len() - i,
    {
        let c = s[i];
        let l = if 'A' <= c && c <= 'Z' {
            ((c as u8) + 32) as char
        } else {
            c
        };
        r.push(l);
        i += 1;
        proof {
            assert(r@ =~= to_ascii_lower(s@).take(i as int));
        }
    }
    proof {
        assert(to_ascii_lower(s@).take(s.len() as int) =~= to_ascii_lower(s@));
    }
    r
}

/// `str::eq_ignore_ascii_case`.
pub fn eq_ignore_case_chars(a: &[char], b: &[char]) -> (r: bool)
    ensures
        r == eq_ignore_case(a@, b@),
{
    let la = lower_chars(a);
    let lb = lower_chars(b);
    eq_chars(la.as_slice(), lb.as_slice())
}


// ───────────────────────── substrings ─────────────────────────

/// `pat` occurs in `s` at position `i`.
pub open spec fn occurs_at(s: Seq<char>, pat: Seq<char>, i: int) -> bool {
    0 <= i && i + pat.len() <= s.len() && s.subrange(i, i + pat.len()) == pat
}

/// `str::contains` with a string pattern.
pub open spec fn contains_seq(s: Seq<char>, pat: Seq<char>) -> bool {
    exists|i: int| occurs_at(s, pat, i)
}

/// The last position below `n` at which `pat` occurs in `s`.
pub open spec fn last_occurrence(s: Seq<char>, pat: Seq<char>, n: nat) -> Option<int>
    decreases n,
{
    if n == 0 {
        None
    } else if occurs_at(s, pat, n - 1) {
        Some(n - 1)
    } else {
        last_occurrence(s, pat, (n - 1) as nat)
    }
}

/// The first piece that `str::rsplit(pat)` yields: the text after the last
/// occurrence of `pat`, or all of `s` when it has none.
pub open spec fn after_last(s: Seq<char>, pat: Seq<char>) -> Seq<char> {
    match last_occurrence(s, pat, s.len() + 1) {
        Some(i) => s.subrange(i + pat.len(), s.len() as int),
        None => s,
    }
}

/// Whether `pat` occurs in `s` at position `i`.
pub fn occurs_at_chars(s: &[char], pat: &[char], i: usize) -> (r: bool)
    ensures
        r == occurs_at(s@, pat@, i as int),
{
    if i > s.len() || pat.len() > s.len() - i {
        return false;
    }
    let mut k: usize = 0;
    while k < pat.len()
        invariant
            i + pat.len() <= s.len(),
            k <= pat.len(),
            forall|t: int| 0 <= t < k ==> s@[i + t] == pat@[t],
        decreases pat.len() - k,
    {
        if s[i + k] != pat[k] {
            assert(s@.subrange(i as int, i + pat.len())[k as int] != pat@[k as int]);
            return false;
        }
        k += 1;
    }
    assert(s@.subrange(i as int, i + pat.len()) =~= pat@);
    true
}

/// `str::contains` with a string pattern.
pub fn contains_chars(s: &[char], pat: &[char]) -> (r: bool)
    ensures
        r == contains_seq(s@, pat@),
{
    if pat.len() > s.len() {
        return false;
    }
    let last = s.len() - pat.len();
    let mut i: usize = 0;
    loop
        invariant
            pat.len() <= s.len(),
            last == s.len() - pat.len(),
            i <= last,
            forall|j: int| 0 <= j < i ==> !occurs_at(s@, pat@, j),
        decreases last - i,
    {
        if occurs_at_chars(s, pat, i) {
            return true;
        }
        if i == last {
            assert forall|j: int| !occurs_at(s@, pat@, j) by {
                if 0 <= j < i {
                }
            }
            return false;
        }
        i += 1;
    }
}

/// The text after the last occurrence of `pat` in `s`, or all of `s`.
pub fn after_last_chars(s: &[char], pat: &[char]) -> (r: Vec<char>)
    ensures
        r@ == after_last(s@, pat@),
{
    let mut i = s.len();
    loop
        invariant
            i <= s.len(),
            last_occurrence(s@, pat@, (s.len() + 1) as nat) == last_occurrence(s@, pat@, (i + 1) as nat),
        decreases i,
    {
        if occurs_at_chars(s, pat, i) {
            return slice_copy(s, i + pat.len(), s.len());
        }
        if i == 0 {
            assert(last_occurrence(s@, pat@, 0) is None);
            return slice_copy(s, 0, s.len());
        }
        i -= 1;
    }
}

} // verus!
