//! Sequence numbers: 32-bit values compared and advanced modulo 2^32.
use vstd::prelude::*;

verus! {

/// The size of the sequence space.
pub open spec fn seq_space() -> int {
    0x1_0000_0000
}

/// `s` advanced by `n`, modulo 2^32.
pub open spec fn seq_add(s: u32, n: int) -> u32 {
    ((s as int + n) % seq_space()) as u32
}

/// How far `to` lies ahead of `from` in the cyclic order that starts at
/// `from`: a value in `[0, 2^32)`.
pub open spec fn seq_dist(from: u32, to: u32) -> int {
    (to as int - from as int) % seq_space()
}

/// `lo <= x <= hi` in the cyclic order that starts at `lo`.
pub open spec fn seq_between(lo: u32, x: u32, hi: u32) -> bool {
    seq_dist(lo, x) <= seq_dist(lo, hi)
}

/// The acceptability test of an inbound segment that starts at `seq` and
/// holds `len` sequence numbers, against the next expected sequence number
/// `rcv_nxt` and the advertised window `wnd`: its first, or else its last,
/// sequence number lies in `[rcv_nxt, rcv_nxt + wnd)`.
pub open spec fn segment_acceptable(rcv_nxt: u32, wnd: u16, seq: u32, len: nat) -> bool {
    seq_dist(rcv_nxt, seq) < wnd || (len > 0 && seq_dist(rcv_nxt, seq_add(seq, len - 1))
        < wnd)
}

/// Advancing `b` by `n` moves it `n` further from `a`, while the sum stays
/// below the size of the sequence space.
pub proof fn lemma_dist_add(a: u32, b: u32, n: int)
    requires
        0 <= n,
        seq_dist(a, b) + n < 0x1_0000_0000,
    ensures
        seq_dist(a, seq_add(b, n)) == seq_dist(a, b) + n,
{
    assert(seq_dist(a, seq_add(b, n)) == seq_dist(a, b) + n) by (nonlinear_arith)
        requires
            0 <= n,
            seq_dist(a, b) + n < 0x1_0000_0000,
            0 <= a < 0x1_0000_0000,
            0 <= b < 0x1_0000_0000,
    ;
}

/// `s + n` modulo 2^32.
pub fn advance(s: u32, n: u32) -> (r: u32)
    ensures
        r == seq_add(s, n as int),
{
    s.wrapping_add(n)
}

/// `s` advanced by a length, modulo 2^32.
pub fn advance_len(s: u32, len: usize) -> (r: u32)
    ensures
        r == seq_add(s, len as int),
{
    let n: u32 = ((len as u64) % 0x1_0000_0000u64) as u32;
    proof {
        vstd::arithmetic::div_mod::lemma_add_mod_noop(s as int, len as int, seq_space());
        vstd::arithmetic::div_mod::lemma_add_mod_noop(s as int, n as int, seq_space());
        vstd::arithmetic::div_mod::lemma_mod_twice(len as int, seq_space());
    }
    advance(s, n)
}

/// The distance from `from` forward to `to`.
pub fn dist(from: u32, to: u32) -> (r: u32)
    ensures
        r as int == seq_dist(from, to),
{
    to.wrapping_sub(from)
}

/// Decides [`segment_acceptable`] for a segment of `len` bytes.
pub fn is_acceptable(rcv_nxt: u32, wnd: u16, seq: u32, len: usize) -> (r: bool)
    ensures
        r == segment_acceptable(rcv_nxt, wnd, seq, len as nat),
{
    if dist(rcv_nxt, seq) < wnd as u32 {
        true
    } else if len == 0 {
        false
    } else {
        let n: u32 = (((len - 1) as u64) % 0x1_0000_0000u64) as u32;
        let last = advance(seq, n);
        proof {
            assert(seq_add(seq, n as int) == seq_add(seq, len - 1))
                by {
                vstd::arithmetic::div_mod::lemma_add_mod_noop(
                    seq as int,
                    (len - 1) % seq_space(),
                    seq_space(),
                );
                vstd::arithmetic::div_mod::lemma_mod_twice(len - 1, seq_space());
            };
        }
        dist(rcv_nxt, last) < wnd as u32
    }
}

} // verus!
