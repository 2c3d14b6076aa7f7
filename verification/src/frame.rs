//! Frames of the raw tunnel: a 4-byte big-endian length, then the bytes.
//! A zero length ends the stream.
use vstd::prelude::*;

verus! {

/// The 4 big-endian bytes of `n`.
pub open spec fn be32(n: u32) -> Seq<u8> {
    seq![(n / 0x100_0000) as u8, ((n / 0x1_0000) % 0x100) as u8, ((n / 0x100) % 0x100) as u8, (n % 0x100) as u8]
}

/// The number that 4 big-endian bytes denote.
pub open spec fn be32_value(b: Seq<u8>) -> nat {
    (b[0] * 0x100_0000 + b[1] * 0x1_0000 + b[2] * 0x100 + b[3]) as nat
}

/// The length prefix of a frame of `len` bytes: `len as u32` (modulo 2^32)
/// in big-endian order.
pub fn frame_header(len: usize) -> (r: [u8; 4])
    ensures
        r@ == be32((len as int % 0x1_0000_0000) as u32),
{
    let n: u32 = (len as u64 % 0x1_0000_0000u64) as u32;
    let r = [(n / 0x100_0000) as u8, ((n / 0x1_0000) % 0x100) as u8, ((n / 0x100) % 0x100) as u8, (n % 0x100) as u8];
    assert(r@ =~= be32(n));
    r
}

/// What a length prefix announces.
pub enum FrameLen {
    /// Zero: the stream ends.
    End,
    /// More than the reader accepts.
    TooLarge(usize),
    /// A frame of this many bytes follows.
    Body(usize),
}

/// Reads a length prefix against the largest frame `max` the reader takes.
pub fn frame_len(header: &[u8; 4], max: usize) -> (r: FrameLen)
    ensures
        be32_value(header@) == 0 ==> r matches FrameLen::End,
        be32_value(header@) > max ==> r == FrameLen::TooLarge(be32_value(header@) as usize),
        0 < be32_value(header@) <= max ==> r == FrameLen::Body(be32_value(header@) as usize),
{
    let b0 = header[0] as u64;
    let b1 = header[1] as u64;
    let b2 = header[2] as u64;
    let b3 = header[3] as u64;
    let len: u64 = b0 * 0x100_0000 + b1 * 0x1_0000 + b2 * 0x100 + b3;
    assert(len == be32_value(header@));
    assert(len < 0x1_0000_0000);
    if len == 0 {
        FrameLen::End
    } else if len > max as u64 {
        FrameLen::TooLarge(len as usize)
    } else {
        FrameLen::Body(len as usize)
    }
}

/// A frame reads back as it was written: the prefix written for `n` bytes
/// announces `n`.
pub proof fn lemma_frame_round_trip(n: u32)
    ensures
        be32_value(be32(n)) == n,
{
    let x = n as int;
    let q1 = x / 0x100;
    let q2 = q1 / 0x100;
    let q3 = q2 / 0x100;
    vstd::arithmetic::div_mod::lemma_fundamental_div_mod(x, 0x100);
    vstd::arithmetic::div_mod::lemma_fundamental_div_mod(q1, 0x100);
    vstd::arithmetic::div_mod::lemma_fundamental_div_mod(q2, 0x100);
    vstd::arithmetic::div_mod::lemma_div_denominator(x, 0x100, 0x100);
    vstd::arithmetic::div_mod::lemma_div_denominator(q1, 0x100, 0x100);
    vstd::arithmetic::div_mod::lemma_div_denominator(x, 0x1_0000, 0x100);
    assert(q3 == x / 0x100_0000);
    assert(q2 == x / 0x1_0000);
    assert(q3 < 0x100);
    let b = be32(n);
    assert(b[0] == q3);
    assert(b[1] == q2 % 0x100);
    assert(b[2] == q1 % 0x100);
    assert(b[3] == x % 0x100);
}

} // verus!
