//! Properties of the connection and the table that hold over every input,
//! proved from the transition functions that the operations implement.
use crate::demux::{demux_wf, DemuxView};
use crate::rto::{min, RtoEstimator, MAX_RTO_US};
use crate::seqnum::{lemma_dist_add, seq_add, seq_between, seq_dist};
use crate::tcb::{after_read, read_into};
use crate::transitions::{
    ack_advances, acked, ahead, lemma_ahead_subset, lemma_without_key_subset, deliver, earliest_timer, enter, find_partial, in_flight,
    lemma_reassemble_frame, on_fin, on_fin_acked, on_payload, on_segment, on_tick, on_write,
    our_fin_acked, pure_ack, read_count, reassemble, receives_data, tcb_wf, timer_ending_at,
    without_key, write_capacity, SegmentModel, TcbView, TcpState,
};
use vstd::arithmetic::power2::{lemma_pow2_unfold, pow2};
use vstd::prelude::*;

verus! {

/// `o2` is `o1` followed by segments whose sequence numbers all lie in
/// `[lo, hi]`.
pub open spec fn sends_within(o1: Seq<SegmentModel>, o2: Seq<SegmentModel>, lo: u32, hi: u32) -> bool {
    &&& o1.len() <= o2.len()
    &&& o2.subrange(0, o1.len() as int) == o1
    &&& forall|i: int|
        o1.len() <= i < o2.len() ==> seq_between(lo, #[trigger] o2[i].0.sequence_number, hi)
}

/// `o2` is `o1` followed by segments whose sequence number is `s`.
spec fn sends_at(o1: Seq<SegmentModel>, o2: Seq<SegmentModel>, s: u32) -> bool {
    &&& o1.len() <= o2.len()
    &&& o2.subrange(0, o1.len() as int) == o1
    &&& forall|i: int| o1.len() <= i < o2.len() ==> (#[trigger] o2[i]).0.sequence_number == s
}

proof fn lemma_sends_at_refl(o: Seq<SegmentModel>, s: u32)
    ensures
        sends_at(o, o, s),
{
    assert(o.subrange(0, o.len() as int) =~= o);
}

proof fn lemma_sends_at_push(o1: Seq<SegmentModel>, o2: Seq<SegmentModel>, x: SegmentModel, s: u32)
    requires
        sends_at(o1, o2, s),
        x.0.sequence_number == s,
    ensures
        sends_at(o1, o2.push(x), s),
{
    assert(o2.push(x).subrange(0, o1.len() as int) =~= o2.subrange(0, o1.len() as int));
    assert forall|i: int| o1.len() <= i < o2.push(x).len() implies (#[trigger] o2.push(
        x,
    )[i]).0.sequence_number == s by {
        if i < o2.len() {
            assert(o2.push(x)[i] == o2[i]);
        }
    }
}

proof fn lemma_sends_at_trans(o1: Seq<SegmentModel>, o2: Seq<SegmentModel>, o3: Seq<SegmentModel>, s: u32)
    requires
        sends_at(o1, o2, s),
        sends_at(o2, o3, s),
    ensures
        sends_at(o1, o3, s),
{
    assert(o3.subrange(0, o1.len() as int) =~= o3.subrange(0, o2.len() as int).subrange(
        0,
        o1.len() as int,
    ));
    assert forall|i: int| o1.len() <= i < o3.len() implies (#[trigger] o3[i]).0.sequence_number
        == s by {
        if i < o2.len() {
            assert(o3[i] == o3.subrange(0, o2.len() as int)[i]);
        }
    }
}

/// What an accepted payload changes: the receive side and the queue of
/// segments, which gains ACKs at `SND.NXT`.
proof fn lemma_payload_frame(m: TcbView, seg: SegmentModel)
    ensures
        ({
            let m2 = on_payload(m, seg);
            &&& m2 == (TcbView {
                recv_window: m2.recv_window,
                rcv_nxt: m2.rcv_nxt,
                partial_segments: m2.partial_segments,
                outbox: m2.outbox,
                ..m
            })
            &&& sends_at(m.outbox, m2.outbox, m.snd_nxt)
            &&& m2.recv_window.len() >= m.recv_window.len()
            &&& m2.recv_window.subrange(0, m.recv_window.len() as int) == m.recv_window
        }),
{
    let h = seg.0;
    lemma_sends_at_refl(m.outbox, m.snd_nxt);
    if seg.1.len() > 0 && crate::transitions::receives_data(m.state) {
        if h.sequence_number == m.rcv_nxt {
            let m0 = TcbView {
                recv_window: m.recv_window + seg.1,
                rcv_nxt: crate::seqnum::seq_add(m.rcv_nxt, seg.1.len() as int),
                ..m
            };
            lemma_reassemble_frame(m0);
            lemma_reassemble_grows(m0);
            assert(m0.recv_window.subrange(0, m.recv_window.len() as int) =~= m.recv_window);
            let r = reassemble(m0);
            assert(r.recv_window.subrange(0, m.recv_window.len() as int) =~= r.recv_window.subrange(
                0,
                m0.recv_window.len() as int,
            ).subrange(0, m.recv_window.len() as int));
        }
        let m1 = if h.sequence_number == m.rcv_nxt {
            deliver(m, seg.1)
        } else if seq_dist(m.rcv_nxt, h.sequence_number) < m.rcv_wnd {
            TcbView {
                partial_segments: crate::transitions::without_key(
                    m.partial_segments,
                    h.sequence_number,
                ).push((h.sequence_number, seg.1)),
                ..m
            }
        } else {
            m
        };
        lemma_sends_at_push(m.outbox, m1.outbox, pure_ack(m1), m.snd_nxt);
    }
}

/// Reassembly only appends to the receive queue.
pub proof fn lemma_reassemble_grows(m: TcbView)
    ensures
        reassemble(m).recv_window.len() >= m.recv_window.len(),
        reassemble(m).recv_window.subrange(0, m.recv_window.len() as int) == m.recv_window,
    decreases m.partial_segments.len(),
{
    match crate::transitions::find_partial(m.partial_segments, m.rcv_nxt) {
        Some(i) => if 0 <= i < m.partial_segments.len() {
            let data = m.partial_segments[i].1;
            let m1 = TcbView {
                recv_window: m.recv_window + data,
                rcv_nxt: crate::seqnum::seq_add(m.rcv_nxt, data.len() as int),
                partial_segments: m.partial_segments.remove(i),
                ..m
            };
            lemma_reassemble_grows(m1);
            let r = reassemble(m1);
            assert(r.recv_window.subrange(0, m.recv_window.len() as int) =~= r.recv_window.subrange(
                0,
                m1.recv_window.len() as int,
            ).subrange(0, m.recv_window.len() as int));
            assert(m1.recv_window.subrange(0, m.recv_window.len() as int) =~= m.recv_window);
        } else {
            assert(m.recv_window.subrange(0, m.recv_window.len() as int) =~= m.recv_window);
        },
        None => {
            assert(m.recv_window.subrange(0, m.recv_window.len() as int) =~= m.recv_window);
        },
    }
}

/// What the peer's FIN changes: the receive side, the state and its
/// clock, and the queue of segments, which gains an ACK at `SND.NXT`.
proof fn lemma_fin_frame(m: TcbView, seg: SegmentModel, now: u64)
    ensures
        ({
            let m2 = on_fin(m, seg, now);
            &&& m2 == (TcbView {
                rcv_nxt: m2.rcv_nxt,
                state: m2.state,
                time_wait_since: m2.time_wait_since,
                outbox: m2.outbox,
                ..m
            })
            &&& sends_at(m.outbox, m2.outbox, m.snd_nxt)
        }),
{
    lemma_sends_at_refl(m.outbox, m.snd_nxt);
    let m1 = TcbView { rcv_nxt: crate::seqnum::seq_add(m.rcv_nxt, 1), ..m };
    lemma_sends_at_push(m.outbox, m.outbox, pure_ack(m1), m.snd_nxt);
}

/// What the acknowledgment of our FIN changes: the state and its clock,
/// and the queue of segments, which may gain an ACK at `SND.NXT`.
proof fn lemma_fin_acked_frame(m: TcbView, now: u64)
    ensures
        ({
            let m2 = on_fin_acked(m, now);
            &&& m2 == (TcbView {
                state: m2.state,
                time_wait_since: m2.time_wait_since,
                outbox: m2.outbox,
                ..m
            })
            &&& sends_at(m.outbox, m2.outbox, m.snd_nxt)
        }),
{
    lemma_sends_at_refl(m.outbox, m.snd_nxt);
    let m1 = enter(m, TcpState::TimeWait, now);
    lemma_sends_at_push(m.outbox, m.outbox, pure_ack(m1), m.snd_nxt);
}

/// Sequence closure for inbound segments: every segment that the
/// connection sends in answer carries a sequence number in
/// `[SND.UNA, SND.NXT]`, and `SND.UNA` only moves forward, up to `SND.NXT`.
/// Left out are the two answers whose sequence number the peer chooses: the
/// RST to any segment in CLOSED, and the RST to a SYN-ACK that acknowledges
/// something other than our SYN.
pub proof fn lemma_sequence_closure_on_segment(m: TcbView, seg: SegmentModel, now: u64)
    requires
        tcb_wf(m),
        m.state != TcpState::Closed,
        !(m.state == TcpState::SynSent && seg.0.flags.ack && !seg.0.flags.rst
            && seg.0.acknowledgment_number != m.snd_nxt),
    ensures
        ({
            let m2 = on_segment(m, seg, now).0;
            &&& sends_within(m.outbox, m2.outbox, m2.snd_una, m2.snd_nxt)
            &&& m2.snd_nxt == m.snd_nxt
            &&& seq_between(m.snd_una, m2.snd_una, m.snd_nxt)
        }),
{
    let m2 = on_segment(m, seg, now).0;
    lemma_segment_sends_at_nxt(m, seg, now);
    assert forall|i: int| m.outbox.len() <= i < m2.outbox.len() implies seq_between(
        m2.snd_una,
        #[trigger] m2.outbox[i].0.sequence_number,
        m2.snd_nxt,
    ) by {
        assert(m2.outbox[i].0.sequence_number == m2.snd_nxt);
    }
}

/// Every segment sent in answer to an inbound segment carries `SND.NXT`,
/// which the answer leaves as it was.
#[verifier::rlimit(80)]
proof fn lemma_segment_sends_at_nxt(m: TcbView, seg: SegmentModel, now: u64)
    requires
        tcb_wf(m),
        m.state != TcpState::Closed,
        !(m.state == TcpState::SynSent && seg.0.flags.ack && !seg.0.flags.rst
            && seg.0.acknowledgment_number != m.snd_nxt),
    ensures
        ({
            let m2 = on_segment(m, seg, now).0;
            &&& sends_at(m.outbox, m2.outbox, m2.snd_nxt)
            &&& m2.snd_nxt == m.snd_nxt
            &&& seq_between(m.snd_una, m2.snd_una, m.snd_nxt)
        }),
{
    let h = seg.0;
    lemma_sends_at_refl(m.outbox, m.snd_nxt);
    match m.state {
        TcpState::Listen | TcpState::SynReceived => {},
        TcpState::SynSent => {
            if h.flags.ack && !h.flags.rst && h.flags.syn {
                let m1 = TcbView {
                    rcv_nxt: crate::seqnum::seq_add(h.sequence_number, 1),
                    rcv_wnd: h.window_size,
                    send_window: Seq::new(h.window_size as nat, |i: int| 0u8),
                    ..m
                };
                let m2 = enter(acked(m1, h.acknowledgment_number, now), TcpState::Established, now);
                lemma_sends_at_push(m.outbox, m2.outbox, pure_ack(m2), m.snd_nxt);
            }
        },
        _ => {
            if crate::seqnum::segment_acceptable(
                m.rcv_nxt,
                m.rcv_wnd,
                h.sequence_number,
                seg.1.len(),
            ) && !h.flags.rst && !h.flags.syn && h.flags.ack {
                let m1 = if ack_advances(m, h.acknowledgment_number) {
                    acked(m, h.acknowledgment_number, now)
                } else {
                    m
                };
                lemma_fin_acked_frame(m1, now);
                let m2 = if our_fin_acked(m1) {
                    on_fin_acked(m1, now)
                } else {
                    m1
                };
                lemma_sends_at_refl(m1.outbox, m.snd_nxt);
                lemma_payload_frame(m2, seg);
                let m3 = on_payload(m2, seg);
                lemma_fin_frame(m3, seg, now);
                lemma_sends_at_trans(m.outbox, m2.outbox, m3.outbox, m.snd_nxt);
                lemma_sends_at_trans(m.outbox, m3.outbox, on_fin(m3, seg, now).outbox, m.snd_nxt);
            } else {
                lemma_sends_at_push(m.outbox, m.outbox, pure_ack(m), m.snd_nxt);
            }
        },
    }
}


/// Sequence closure for the timer: a retransmission carries the key of a
/// timer, which lies in `[SND.UNA, SND.NXT)`, and the FIN goes out at
/// `SND.NXT`, which moves past it. `SND.UNA` does not move.
pub proof fn lemma_sequence_closure_on_tick(m: TcbView, now: u64)
    requires
        tcb_wf(m),
    ensures
        ({
            let m2 = on_tick(m, now).0;
            &&& sends_within(m.outbox, m2.outbox, m2.snd_una, m2.snd_nxt)
            &&& m2.snd_una == m.snd_una
        }),
{
    let m2 = on_tick(m, now).0;
    match earliest_timer(m.timers, m.snd_una) {
        Some(i) => {
            if 0 <= i < m.timers.len() && crate::transitions::elapsed(now, m.timers[i].sent_at)
                >= m.rto.rto {
                let t = m.timers[i];
                assert(seq_dist(m.snd_una, t.seq) < in_flight(m));
                assert(m2.outbox.subrange(0, m.outbox.len() as int) =~= m.outbox);
            } else {
                assert(m2.outbox.subrange(0, m.outbox.len() as int) =~= m.outbox);
            }
        },
        None => {
            if m.state == TcpState::FinWait1 && m.fin_seq is None {
                lemma_dist_add(m.snd_una, m.snd_nxt, 1);
            }
            assert(m2.outbox.subrange(0, m.outbox.len() as int) =~= m.outbox);
        },
    }
}

/// Sequence closure for the application's write: the data goes out at the
/// old `SND.NXT`, which the write moves past it. `SND.UNA` does not move.
pub proof fn lemma_sequence_closure_on_write(m: TcbView, payload: Seq<u8>, now: u64)
    requires
        tcb_wf(m),
    ensures
        ({
            let m2 = on_write(m, payload, now).0;
            &&& sends_within(m.outbox, m2.outbox, m2.snd_una, m2.snd_nxt)
            &&& m2.snd_una == m.snd_una
        }),
{
    let m2 = on_write(m, payload, now).0;
    let n = write_capacity(m, payload.len() as int);
    if m.state == TcpState::Established && n > 0 {
        lemma_dist_add(m.snd_una, m.snd_nxt, n);
    }
    assert(m2.outbox.subrange(0, m.outbox.len() as int) =~= m.outbox);
}

/// The timer that [`timer_ending_at`] finds ends at the ACK.
proof fn lemma_timer_ending_at(ts: Seq<crate::transitions::RetransmitTimer>, ack: u32)
    ensures
        timer_ending_at(ts, ack) matches Some(i) ==> 0 <= i < ts.len() && ts[i].end == ack,
    decreases ts.len(),
{
    if ts.len() > 0 {
        lemma_timer_ending_at(ts.drop_last(), ack);
        if let Some(i) = timer_ending_at(ts.drop_last(), ack) {
            assert(ts.drop_last()[i] == ts[i]);
        }
    }
}

/// Karn's algorithm: when every timer of a segment that ends at the ACK
/// belongs to a segment that was sent again, the ACK takes no round-trip
/// sample: the estimator is left as it was.
pub proof fn lemma_karn(m: TcbView, seg: SegmentModel, now: u64)
    requires
        forall|i: int|
            0 <= i < m.timers.len() && (#[trigger] m.timers[i]).end == seg.0.acknowledgment_number
                ==> m.timers[i].retransmitted,
    ensures
        on_segment(m, seg, now).0.rto == m.rto,
{
    let h = seg.0;
    lemma_timer_ending_at(m.timers, h.acknowledgment_number);
    match m.state {
        TcpState::Listen | TcpState::SynReceived | TcpState::Closed => {},
        TcpState::SynSent => {},
        _ => {
            if crate::seqnum::segment_acceptable(
                m.rcv_nxt,
                m.rcv_wnd,
                h.sequence_number,
                seg.1.len(),
            ) && !h.flags.rst && !h.flags.syn && h.flags.ack {
                let m1 = if ack_advances(m, h.acknowledgment_number) {
                    acked(m, h.acknowledgment_number, now)
                } else {
                    m
                };
                lemma_fin_acked_frame(m1, now);
                let m2 = if our_fin_acked(m1) {
                    on_fin_acked(m1, now)
                } else {
                    m1
                };
                lemma_payload_frame(m2, seg);
                lemma_fin_frame(on_payload(m2, seg), seg, now);
            }
        },
    }
}

/// The estimator after `n` backoffs.
pub open spec fn backed_off_times(e: RtoEstimator, n: nat) -> RtoEstimator
    decreases n,
{
    if n == 0 {
        e
    } else {
        backed_off_times(e, (n - 1) as nat).backed_off()
    }
}

/// RTO backoff: `n` consecutive retransmissions multiply the timeout by
/// `2^n`, up to sixty seconds.
pub proof fn lemma_rto_backoff(e: RtoEstimator, n: nat)
    requires
        e.rto <= MAX_RTO_US,
    ensures
        backed_off_times(e, n).rto == min(e.rto * pow2(n), MAX_RTO_US as int),
    decreases n,
{
    if n == 0 {
        vstd::arithmetic::power2::lemma2_to64();
    } else {
        lemma_rto_backoff(e, (n - 1) as nat);
        lemma_pow2_unfold(n);
        let prev = e.rto * pow2((n - 1) as nat);
        assert(e.rto * pow2(n) == 2 * prev) by (nonlinear_arith)
            requires
                pow2(n) == 2 * pow2((n - 1) as nat),
                prev == e.rto * pow2((n - 1) as nat),
        ;
    }
}

/// A retransmission by the timer doubles the timeout, up to sixty seconds.
pub proof fn lemma_tick_backoff(m: TcbView, now: u64)
    requires
        on_tick(m, now).0.outbox.len() > m.outbox.len(),
        earliest_timer(m.timers, m.snd_una) is Some,
    ensures
        on_tick(m, now).0.rto.rto == min(2 * m.rto.rto, MAX_RTO_US as int),
{
}

/// Four-tuple uniqueness: no two connections of a well-formed table share
/// a four-tuple; indeed none share a local port.
pub proof fn lemma_four_tuple_unique(d: DemuxView)
    requires
        demux_wf(d),
    ensures
        forall|i: int, j: int|
            0 <= i < d.entries.len() && 0 <= j < d.entries.len() && i != j ==> (
            #[trigger] d.entries[i]).0 != (#[trigger] d.entries[j]).0,
{
}

/// RST on CLOSED: a segment without RST that reaches a CLOSED connection is
/// answered with exactly one segment, a RST, and nothing else changes.
pub proof fn lemma_rst_on_closed(m: TcbView, seg: SegmentModel, now: u64)
    requires
        m.state == TcpState::Closed,
        !seg.0.flags.rst,
    ensures
        ({
            let (m2, r) = on_segment(m, seg, now);
            &&& r is Ok
            &&& m2.outbox.len() == m.outbox.len() + 1
            &&& m2.outbox.drop_last() == m.outbox
            &&& m2.outbox.last().0.flags.rst
            &&& m2.outbox.last().1.len() == 0
            &&& (TcbView { outbox: m.outbox, ..m2 }) == m
        }),
{
    let m2 = on_segment(m, seg, now).0;
    assert(m2.outbox.drop_last() =~= m.outbox);
    assert((TcbView { outbox: m.outbox, ..m2 }) =~= m);
}

/// Received bytes stay in order: an inbound segment only appends to the
/// queue of received bytes; what was there is kept as it was.
pub proof fn lemma_receive_queue_appends(m: TcbView, seg: SegmentModel, now: u64)
    ensures
        ({
            let m2 = on_segment(m, seg, now).0;
            &&& m2.recv_window.len() >= m.recv_window.len()
            &&& m2.recv_window.subrange(0, m.recv_window.len() as int) == m.recv_window
        }),
{
    let h = seg.0;
    assert(m.recv_window.subrange(0, m.recv_window.len() as int) =~= m.recv_window);
    match m.state {
        TcpState::Listen | TcpState::SynReceived | TcpState::Closed | TcpState::SynSent => {
            let m2 = on_segment(m, seg, now).0;
            assert(m2.recv_window == m.recv_window);
            assert(m2.recv_window.subrange(0, m.recv_window.len() as int) =~= m.recv_window);
        },
        _ => {
            if crate::seqnum::segment_acceptable(
                m.rcv_nxt,
                m.rcv_wnd,
                h.sequence_number,
                seg.1.len(),
            ) && !h.flags.rst && !h.flags.syn && h.flags.ack {
                let m1 = if ack_advances(m, h.acknowledgment_number) {
                    acked(m, h.acknowledgment_number, now)
                } else {
                    m
                };
                lemma_fin_acked_frame(m1, now);
                let m2 = if our_fin_acked(m1) {
                    on_fin_acked(m1, now)
                } else {
                    m1
                };
                lemma_payload_frame(m2, seg);
                lemma_fin_frame(on_payload(m2, seg), seg, now);
            }
        },
    }
}


/// `data` is the part of the stream `s`, whose first byte has sequence
/// number `start`, that begins at sequence number `seq`.
pub open spec fn agrees(s: Seq<u8>, start: u32, seq: u32, data: Seq<u8>) -> bool {
    let p = seq_dist(start, seq);
    p + data.len() <= s.len() && s.subrange(p, p + data.len() as int) == data
}

/// The receive side of `m` against the peer's stream `s`, whose first byte
/// has sequence number `start` and of which the application has read the
/// first `read` bytes: the receive queue holds the bytes that follow, and,
/// while the connection takes in data, they run up to `RCV.NXT` and every
/// out-of-order payload is the part of the stream at its sequence number.
pub open spec fn receives_stream(m: TcbView, s: Seq<u8>, start: u32, read: int) -> bool {
    &&& 0 <= read
    &&& read + m.recv_window.len() <= s.len()
    &&& m.recv_window == s.subrange(read, read + m.recv_window.len())
    &&& receives_data(m.state) ==> {
        &&& seq_dist(start, m.rcv_nxt) == read + m.recv_window.len()
        &&& forall|i: int|
            0 <= i < m.partial_segments.len() ==> agrees(
                s,
                start,
                (#[trigger] m.partial_segments[i]).0,
                m.partial_segments[i].1,
            )
    }
}

/// The entry that [`find_partial`] finds starts at the key.
proof fn lemma_find_partial(ps: Seq<(u32, Seq<u8>)>, k: u32)
    ensures
        find_partial(ps, k) matches Some(i) ==> 0 <= i < ps.len() && ps[i].0 == k,
    decreases ps.len(),
{
    if ps.len() > 0 {
        lemma_find_partial(ps.drop_last(), k);
        if let Some(i) = find_partial(ps.drop_last(), k) {
            assert(ps.drop_last()[i] == ps[i]);
        }
    }
}

/// The receive side while data is taken in, without the state.
spec fn stream_inv(m: TcbView, s: Seq<u8>, start: u32, read: int) -> bool {
    &&& 0 <= read
    &&& read + m.recv_window.len() <= s.len()
    &&& m.recv_window == s.subrange(read, read + m.recv_window.len())
    &&& seq_dist(start, m.rcv_nxt) == read + m.recv_window.len()
    &&& forall|i: int|
        0 <= i < m.partial_segments.len() ==> agrees(
            s,
            start,
            (#[trigger] m.partial_segments[i]).0,
            m.partial_segments[i].1,
        )
}

/// Bytes that continue the stream at `RCV.NXT`, appended, keep it matched.
proof fn lemma_append_in_order(m: TcbView, s: Seq<u8>, start: u32, read: int, data: Seq<u8>)
    requires
        stream_inv(m, s, start, read),
        s.len() < 0x1_0000_0000,
        agrees(s, start, m.rcv_nxt, data),
    ensures
        stream_inv(
            TcbView {
                recv_window: m.recv_window + data,
                rcv_nxt: seq_add(m.rcv_nxt, data.len() as int),
                ..m
            },
            s,
            start,
            read,
        ),
{
    let got = read + m.recv_window.len();
    lemma_dist_add(start, m.rcv_nxt, data.len() as int);
    assert(m.recv_window + data =~= s.subrange(read, got + data.len()));
}

/// Reassembly keeps the receive side matched to the stream.
proof fn lemma_reassemble_stream(m: TcbView, s: Seq<u8>, start: u32, read: int)
    requires
        stream_inv(m, s, start, read),
        s.len() < 0x1_0000_0000,
    ensures
        stream_inv(reassemble(m), s, start, read),
    decreases m.partial_segments.len(),
{
    lemma_find_partial(m.partial_segments, m.rcv_nxt);
    match find_partial(m.partial_segments, m.rcv_nxt) {
        Some(i) => if 0 <= i < m.partial_segments.len() {
            let data = m.partial_segments[i].1;
            assert(agrees(s, start, m.partial_segments[i].0, data));
            lemma_append_in_order(m, s, start, read, data);
            let m1 = TcbView {
                recv_window: m.recv_window + data,
                rcv_nxt: seq_add(m.rcv_nxt, data.len() as int),
                partial_segments: m.partial_segments.remove(i),
                ..m
            };
            assert forall|j: int| 0 <= j < m1.partial_segments.len() implies agrees(
                s,
                start,
                (#[trigger] m1.partial_segments[j]).0,
                m1.partial_segments[j].1,
            ) by {
                if j < i {
                    assert(m1.partial_segments[j] == m.partial_segments[j]);
                } else {
                    assert(m1.partial_segments[j] == m.partial_segments[j + 1]);
                }
            }
            lemma_reassemble_stream(m1, s, start, read);
        },
        None => {},
    }
}

/// Delivering an in-order payload keeps the receive side matched.
proof fn lemma_deliver_stream(m: TcbView, s: Seq<u8>, start: u32, read: int, data: Seq<u8>)
    requires
        stream_inv(m, s, start, read),
        s.len() < 0x1_0000_0000,
        agrees(s, start, m.rcv_nxt, data),
    ensures
        stream_inv(deliver(m, data), s, start, read),
{
    let m0 = TcbView {
        recv_window: m.recv_window + data,
        rcv_nxt: seq_add(m.rcv_nxt, data.len() as int),
        ..m
    };
    lemma_append_in_order(m, s, start, read, data);
    lemma_reassemble_stream(m0, s, start, read);
    let r = reassemble(m0);
    lemma_ahead_subset(r.partial_segments, r.rcv_nxt, r.rcv_wnd);
    let d = deliver(m, data);
    assert forall|j: int| 0 <= j < d.partial_segments.len() implies agrees(
        s,
        start,
        (#[trigger] d.partial_segments[j]).0,
        d.partial_segments[j].1,
    ) by {
        let k = choose|k: int|
            0 <= k < r.partial_segments.len() && r.partial_segments[k]
                == ahead(r.partial_segments, r.rcv_nxt, r.rcv_wnd)[j];
        assert(agrees(s, start, r.partial_segments[k].0, r.partial_segments[k].1));
    }
}

/// An accepted payload keeps the receive side matched.
proof fn lemma_payload_stream(m: TcbView, seg: SegmentModel, s: Seq<u8>, start: u32, read: int)
    requires
        receives_stream(m, s, start, read),
        s.len() < 0x1_0000_0000,
        seg.1.len() > 0 ==> agrees(s, start, seg.0.sequence_number, seg.1),
    ensures
        receives_stream(on_payload(m, seg), s, start, read),
{
    let h = seg.0;
    lemma_payload_frame(m, seg);
    if seg.1.len() > 0 && receives_data(m.state) {
        if h.sequence_number == m.rcv_nxt {
            lemma_deliver_stream(m, s, start, read, seg.1);
        } else if seq_dist(m.rcv_nxt, h.sequence_number) < m.rcv_wnd {
            let ps = without_key(m.partial_segments, h.sequence_number);
            lemma_without_key_subset(m.partial_segments, h.sequence_number);
            let ps2 = ps.push((h.sequence_number, seg.1));
            assert forall|j: int| 0 <= j < ps2.len() implies agrees(
                s,
                start,
                (#[trigger] ps2[j]).0,
                ps2[j].1,
            ) by {
                if j < ps.len() {
                    assert(ps2[j] == ps[j]);
                    let k = choose|k: int|
                        0 <= k < m.partial_segments.len() && m.partial_segments[k] == ps[j];
                    assert(agrees(s, start, m.partial_segments[k].0, m.partial_segments[k].1));
                }
            }
        }
    }
}

/// Receive in order: if every payload the peer sends is the part of its
/// stream (shorter than 2^32 bytes) at the payload's sequence number, an
/// inbound segment keeps the receive queue equal to the bytes of the stream
/// that follow those the application has read. The handshake, which fixes
/// where the stream starts, is [`lemma_handshake_starts_stream`].
pub proof fn lemma_receive_in_order(
    m: TcbView,
    seg: SegmentModel,
    now: u64,
    s: Seq<u8>,
    start: u32,
    read: int,
)
    requires
        m.state != TcpState::SynSent,
        receives_stream(m, s, start, read),
        s.len() < 0x1_0000_0000,
        seg.1.len() > 0 ==> agrees(s, start, seg.0.sequence_number, seg.1),
    ensures
        receives_stream(on_segment(m, seg, now).0, s, start, read),
{
    let h = seg.0;
    match m.state {
        TcpState::Listen | TcpState::SynReceived | TcpState::Closed => {},
        _ => {
            if crate::seqnum::segment_acceptable(
                m.rcv_nxt,
                m.rcv_wnd,
                h.sequence_number,
                seg.1.len(),
            ) && !h.flags.rst && !h.flags.syn && h.flags.ack {
                let m1 = if ack_advances(m, h.acknowledgment_number) {
                    acked(m, h.acknowledgment_number, now)
                } else {
                    m
                };
                lemma_fin_acked_frame(m1, now);
                let m2 = if our_fin_acked(m1) {
                    on_fin_acked(m1, now)
                } else {
                    m1
                };
                lemma_payload_stream(m2, seg, s, start, read);
                let m3 = on_payload(m2, seg);
                lemma_fin_frame(m3, seg, now);
            }
        },
    }
}

/// The handshake starts the stream: once a SYN-ACK establishes the
/// connection, the receive side matches any stream of the peer that starts
/// after its SYN, with nothing received or read yet.
pub proof fn lemma_handshake_starts_stream(m: TcbView, seg: SegmentModel, now: u64, s: Seq<u8>)
    requires
        m.state == TcpState::SynSent,
        m.recv_window.len() == 0,
        m.partial_segments.len() == 0,
    ensures
        on_segment(m, seg, now).0.state == TcpState::Established ==> receives_stream(
            on_segment(m, seg, now).0,
            s,
            seq_add(seg.0.sequence_number, 1),
            0,
        ),
{
    let m2 = on_segment(m, seg, now).0;
    assert(m.recv_window =~= s.subrange(0, 0));
}

/// Reads hand out the stream in order: a read that takes `n` bytes gives
/// the `n` bytes of the stream after those read before, and the receive
/// side stays matched with `n` more bytes read.
pub proof fn lemma_read_in_order(m: TcbView, buf: Seq<u8>, s: Seq<u8>, start: u32, read: int)
    requires
        receives_stream(m, s, start, read),
    ensures
        ({
            let r = read_count(m, buf.len() as int);
            r matches Ok(n) ==> {
                &&& read_into(m, buf, r).subrange(0, n as int) == s.subrange(read, read + n)
                &&& receives_stream(after_read(m, r), s, start, read + n)
            }
        }),
{
    let r = read_count(m, buf.len() as int);
    if let Ok(n) = r {
        let out = read_into(m, buf, r);
        assert(out.subrange(0, n as int) =~= s.subrange(read, read + n));
        let m2 = after_read(m, r);
        assert(m2.recv_window =~= s.subrange(read + n, read + n + m2.recv_window.len()));
    }
}

} // verus!
