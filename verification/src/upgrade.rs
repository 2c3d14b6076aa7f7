//! Remote upgrade of a node: the checks before it starts, where the new
//! program comes from, and the check of its digest.
use vstd::prelude::*;
use crate::text::{chars_of, dec, dec_signed, eq_ignore_case, eq_ignore_case_chars, fmt_i64, fmt_u64, push_all, string_of};

verus! {

/// Free disk space an upgrade needs: the new program, a backup and room to spare.
pub const MIN_FREE_DISK: u64 = 104857600;

/// A certificate with less validity left than this (7 days) could lapse
/// during the upgrade.
pub const MIN_CERT_REMAINING_MS: i64 = 604800000;

/// Why an upgrade does not start.
pub enum PreflightError {
    /// A marker of an upgrade under way exists.
    InProgress,
    /// Too little free disk space.
    InsufficientDisk(u64),
    /// The certificate expires too soon; the milliseconds it has left.
    CertExpiring(i64),
}

impl PreflightError {
    pub fn message(&self) -> (r: String)
        ensures
            match self {
                PreflightError::InProgress => r@ == "upgrade already in progress (.upgrade-pending exists)"@,
                PreflightError::InsufficientDisk(free) => r@ == "insufficient disk: "@ + dec(*free as nat) + " < "@ + dec(
                    MIN_FREE_DISK as nat,
                ),
                PreflightError::CertExpiring(left) => r@ == "cert too close to expiry: "@ + dec_signed(*left as int)
                    + " ms remaining < "@ + dec_signed(MIN_CERT_REMAINING_MS as int) + " ms required"@,
            },
    {
        match self {
            PreflightError::InProgress => String::from_str("upgrade already in progress (.upgrade-pending exists)"),
            PreflightError::InsufficientDisk(free) => {
                let mut m = chars_of("insufficient disk: ");
                let a = fmt_u64(*free);
                push_all(&mut m, a.as_slice());
                let lt = chars_of(" < ");
                push_all(&mut m, lt.as_slice());
                let b = fmt_u64(MIN_FREE_DISK);
                push_all(&mut m, b.as_slice());
                string_of(m.as_slice())
            },
            PreflightError::CertExpiring(left) => {
                let mut m = chars_of("cert too close to expiry: ");
                let a = fmt_i64(*left);
                push_all(&mut m, a.as_slice());
                let mid = chars_of(" ms remaining < ");
                push_all(&mut m, mid.as_slice());
                let b = fmt_i64(MIN_CERT_REMAINING_MS);
                push_all(&mut m, b.as_slice());
                let end = chars_of(" ms required");
                push_all(&mut m, end.as_slice());
                string_of(m.as_slice())
            },
        }
    }
}

/// The checks before an upgrade, in order: no upgrade under way, enough
/// free disk (an unknown amount counts as none), and, when the certificate's
/// expiry is known (positive), at least 7 days of validity left.
pub fn preflight(pending_exists: bool, free_disk: Option<u64>, cert_not_after_ms: i64, now_ms: i64) -> (r: Result<
    (),
    PreflightError,
>)
    requires
        now_ms >= 0,
    ensures
        pending_exists ==> r matches Err(PreflightError::InProgress),
        !pending_exists && (match free_disk {
            Some(f) => f,
            None => 0,
        }) < MIN_FREE_DISK ==> r == Err::<(), PreflightError>(PreflightError::InsufficientDisk(
            match free_disk {
                Some(f) => f,
                None => 0,
            },
        )),
        !pending_exists && (match free_disk {
            Some(f) => f,
            None => 0,
        }) >= MIN_FREE_DISK ==> {
            if cert_not_after_ms > 0 && cert_not_after_ms - now_ms < MIN_CERT_REMAINING_MS {
                r == Err::<(), PreflightError>(PreflightError::CertExpiring((cert_not_after_ms - now_ms) as i64))
            } else {
                r is Ok
            }
        },
{
    if pending_exists {
        return Err(PreflightError::InProgress);
    }
    let free = match free_disk {
        Some(f) => f,
        None => 0,
    };
    if free < MIN_FREE_DISK {
        return Err(PreflightError::InsufficientDisk(free));
    }
    if cert_not_after_ms > 0 {
        let remaining = cert_not_after_ms - now_ms;
        if remaining < MIN_CERT_REMAINING_MS {
            return Err(PreflightError::CertExpiring(remaining));
        }
    }
    Ok(())
}

/// Where the node program of release `target_ref` is downloaded from; the
/// rolling release when no release is named.
pub open spec fn release_url(target_ref: Seq<char>) -> Seq<char> {
    if target_ref.len() == 0 {
        "https://github.com/Everless321/Iris/releases/download/rolling/iris-node-musl-x86_64"@
    } else {
        "https://github.com/Everless321/Iris/releases/download/"@ + target_ref + "/iris-node-musl-x86_64"@
    }
}

pub fn build_url(target_ref: &str) -> (r: String)
    ensures
        r@ == release_url(target_ref@),
{
    let t = chars_of(target_ref);
    if t.len() == 0 {
        String::from_str("https://github.com/Everless321/Iris/releases/download/rolling/iris-node-musl-x86_64")
    } else {
        let mut m = chars_of("https://github.com/Everless321/Iris/releases/download/");
        push_all(&mut m, t.as_slice());
        let end = chars_of("/iris-node-musl-x86_64");
        push_all(&mut m, end.as_slice());
        string_of(m.as_slice())
    }
}

/// The wait before reconnecting the command stream after `secs` seconds:
/// doubled, at most a minute.
pub fn next_backoff_secs(secs: u64) -> (r: u64)
    ensures
        r == if 2 * secs > 60 {
            60
        } else {
            2 * secs
        },
{
    if secs > 30 {
        60
    } else {
        2 * secs
    }
}

// ───────────────────────── digest ─────────────────────────

/// The SHA-256 digest of `data`.
pub uninterp spec fn sha256_of(data: Seq<u8>) -> Seq<u8>;

/// `sha2::Sha256::digest`: the 32-byte SHA-256 digest of `data`, a function
/// of the bytes alone.
#[verifier::external_body]
fn sha256_digest(data: &[u8]) -> (r: Vec<u8>)
    ensures
        r@ == sha256_of(data@),
        r@.len() == 32,
{
    <sha2::Sha256 as sha2::Digest>::digest(data).to_vec()
}

/// A lowercase hex digit.
pub open spec fn hex_digit(n: int) -> char {
    if n < 10 {
        (48 + n) as char
    } else {
        (87 + n) as char
    }
}

/// The lowercase hex text of `bytes`, two digits a byte.
pub open spec fn hex_lower(bytes: Seq<u8>) -> Seq<char>
    decreases bytes.len(),
{
    if bytes.len() == 0 {
        Seq::empty()
    } else {
        hex_lower(bytes.drop_last()) + seq![hex_digit((bytes.last() / 16) as int), hex_digit((bytes.last() % 16) as int)]
    }
}

fn hex_char(n: u8) -> (c: char)
    requires
        n < 16,
    ensures
        c == hex_digit(n as int),
{
    if n < 10 {
        (48 + n) as char
    } else {
        (87 + n) as char
    }
}

/// The bytes as lowercase hex, two digits each (what `hex::encode` gives).
fn hex_encode(bytes: &[u8]) -> (r: String)
    ensures
        r@ == hex_lower(bytes@),
{
    let mut out: Vec<char> = Vec::new();
    let mut i: usize = 0;
    while i < bytes.len()
        invariant
            i <= bytes.len(),
            out@ == hex_lower(bytes@.take(i as int)),
        decreases bytes.len() - i,
    {
        proof {
            assert(bytes@.take(i + 1).drop_last() == bytes@.take(i as int));
            assert(bytes@.take(i + 1).last() == bytes@[i as int]);
        }
        let b = bytes[i];
        out.push(hex_char(b / 16));
        out.push(hex_char(b % 16));
        i += 1;
    }
    assert(bytes@.take(bytes.len() as int) == bytes@);
    string_of(out.as_slice())
}

/// The SHA-256 digest of `data` in lowercase hex.
pub fn sha256_hex(data: &[u8]) -> (r: String)
    ensures
        r@ == hex_lower(sha256_of(data@)),
{
    let d = sha256_digest(data);
    hex_encode(d.as_slice())
}

/// The digest of a download differs from the one the upgrade named.
pub struct ChecksumMismatch {
    pub expected: String,
    pub got: String,
}

impl ChecksumMismatch {
    pub fn message(&self) -> (r: String)
        ensures
            r@ == "sha256 mismatch: expected "@ + self.expected@ + " got "@ + self.got@,
    {
        let mut m = chars_of("sha256 mismatch: expected ");
        let e = chars_of(self.expected.as_str());
        push_all(&mut m, e.as_slice());
        let g = chars_of(" got ");
        push_all(&mut m, g.as_slice());
        let h = chars_of(self.got.as_str());
        push_all(&mut m, h.as_slice());
        string_of(m.as_slice())
    }
}

/// The verdict on a download whose digest is `got` (lowercase hex): no
/// expected digest means no check; else the two must agree, ignoring case.
pub fn checksum_verdict(expected: &str, got: String) -> (r: Result<(), ChecksumMismatch>)
    ensures
        (expected@.len() == 0 || eq_ignore_case(got@, expected@)) ==> r is Ok,
        !(expected@.len() == 0 || eq_ignore_case(got@, expected@)) ==> (r matches Err(m) && m.expected@
            == expected@ && m.got@ == got@),
{
    let e = chars_of(expected);
    if e.len() == 0 {
        return Ok(());
    }
    let g = chars_of(got.as_str());
    if eq_ignore_case_chars(g.as_slice(), e.as_slice()) {
        Ok(())
    } else {
        Err(ChecksumMismatch { expected: string_of(e.as_slice()), got })
    }
}

/// Checks the downloaded program `data` against the digest the upgrade
/// named (none when `expected` is empty).
pub fn verify_download(expected: &str, data: &[u8]) -> (r: Result<(), ChecksumMismatch>)
    ensures
        (expected@.len() == 0 || eq_ignore_case(hex_lower(sha256_of(data@)), expected@)) ==> r is Ok,
        !(expected@.len() == 0 || eq_ignore_case(hex_lower(sha256_of(data@)), expected@)) ==> (r matches Err(m)
            && m.expected@ == expected@ && m.got@ == hex_lower(sha256_of(data@))),
{
    if expected.unicode_len() == 0 {
        return Ok(());
    }
    let got = sha256_hex(data);
    checksum_verdict(expected, got)
}

} // verus!
