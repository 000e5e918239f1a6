//! The abstract state of a connection and the transitions that inbound
//! segments, timer ticks and application calls make on it.
use crate::rto::RtoEstimator;
use crate::segment::{Endpoint, TcpFlags, TcpHeaderFields};
use crate::seqnum::{seq_add, seq_dist, segment_acceptable};
use crate::wire::MAX_TCP_PAYLOAD;
use vstd::prelude::*;

verus! {

/// The eleven states of a TCP connection.
#[derive(Clone, Copy, Debug, PartialEq, Eq, Structural)]
pub enum TcpState {
    Listen,
    SynSent,
    SynReceived,
    Established,
    FinWait1,
    FinWait2,
    CloseWait,
    Closing,
    LastAck,
    TimeWait,
    Closed,
}

/// Why a connection refused an operation or a segment.
#[derive(Clone, Copy, Debug, PartialEq, Eq, Structural)]
pub enum TcpError {
    /// The application read or wrote in a state that forbids it.
    NotConnected,
    /// The segment would drive a passive open, which this stack lacks.
    NotImplemented,
    /// The segment breaks the rules of the current state (a SYN after the
    /// handshake); the connection is left as it was.
    ProtocolViolation,
}

/// A retransmission timer: the first sequence number of a segment and the
/// one after it, whether the segment was sent again, and when it was last
/// sent, in microseconds.
#[derive(Clone, Copy, Debug, PartialEq, Eq, Structural)]
pub struct RetransmitTimer {
    pub seq: u32,
    pub end: u32,
    pub retransmitted: bool,
    pub sent_at: u64,
}

/// An outbound or inbound segment as a value: header and payload.
pub type SegmentModel = (TcpHeaderFields, Seq<u8>);

/// Twice the maximum segment lifetime, in microseconds: the time a
/// connection lingers in TIME-WAIT.
pub const TIME_WAIT_US: u64 = 60_000_000;

/// The abstract state of a connection.
#[verifier::ext_equal]
pub ghost struct TcbView {
    pub local: Endpoint,
    pub remote: Endpoint,
    pub state: TcpState,
    /// The initial send sequence number, which the SYN occupies.
    pub iss: u32,
    pub snd_una: u32,
    pub snd_nxt: u32,
    pub rcv_nxt: u32,
    /// The window advertised to the peer, and the bound of acceptable
    /// inbound sequence numbers.
    pub rcv_wnd: u16,
    /// The sequence number of our FIN, once it is sent.
    pub fin_seq: Option<u32>,
    /// The ring of outbound bytes, as long as the window the peer
    /// advertised; the byte with sequence number `s` sits at slot
    /// `s mod len` (see [`ring_slot`]).
    pub send_window: Seq<u8>,
    /// In-order bytes received and not yet read.
    pub recv_window: Seq<u8>,
    /// Out-of-order payloads by their first sequence number.
    pub partial_segments: Seq<(u32, Seq<u8>)>,
    pub timers: Seq<RetransmitTimer>,
    pub rto: RtoEstimator,
    pub time_wait_since: Option<u64>,
    /// The segments handed to the transmit path, oldest first.
    pub outbox: Seq<SegmentModel>,
}

pub open spec fn flags(fin: bool, syn: bool, rst: bool, psh: bool, ack: bool) -> TcpFlags {
    TcpFlags { fin, syn, rst, psh, ack }
}

/// The time from `since` to `now`, zero if `now` is earlier.
pub open spec fn elapsed(now: u64, since: u64) -> int {
    if now >= since {
        now - since
    } else {
        0
    }
}

/// Sequence numbers sent and not yet acknowledged.
pub open spec fn in_flight(m: TcbView) -> int {
    seq_dist(m.snd_una, m.snd_nxt)
}

/// An outbound header of this connection.
pub open spec fn header_for(m: TcbView, seq: u32, ack: u32, f: TcpFlags) -> TcpHeaderFields {
    TcpHeaderFields {
        source_port: m.local.port,
        destination_port: m.remote.port,
        sequence_number: seq,
        acknowledgment_number: ack,
        flags: f,
        window_size: m.rcv_wnd,
    }
}

/// A pure ACK carrying `SND.NXT` and `RCV.NXT`.
pub open spec fn pure_ack(m: TcbView) -> SegmentModel {
    (header_for(m, m.snd_nxt, m.rcv_nxt, flags(false, false, false, false, true)), seq![])
}

/// The SYN of the active open.
pub open spec fn syn_segment(m: TcbView) -> SegmentModel {
    (header_for(m, m.iss, 0, flags(false, true, false, false, false)), seq![])
}

/// Our FIN at sequence number `f`.
pub open spec fn fin_segment(m: TcbView, f: u32) -> SegmentModel {
    (header_for(m, f, m.rcv_nxt, flags(true, false, false, false, true)), seq![])
}

/// The slot of a send ring of `len` slots that holds the byte with
/// sequence number `s`: `s mod len`.
pub open spec fn ring_slot(len: int, s: u32) -> int {
    s as int % len
}

/// The `n` bytes of the send ring from sequence number `from` on, each read
/// from its own slot.
pub open spec fn ring_bytes(ring: Seq<u8>, from: u32, n: int) -> Seq<u8> {
    Seq::new(n as nat, |j: int| ring[ring_slot(ring.len() as int, seq_add(from, j))])
}

/// The most a retransmission sends: the unacknowledged bytes from `key`
/// on, up to what one datagram carries.
pub open spec fn resend_len(m: TcbView, key: u32) -> int {
    let n = seq_dist(key, m.snd_nxt);
    if n <= MAX_TCP_PAYLOAD {
        n
    } else {
        MAX_TCP_PAYLOAD as int
    }
}

/// A data segment that sends again the bytes from `key` on, up to
/// `SND.NXT` or to what one datagram carries.
pub open spec fn data_segment(m: TcbView, key: u32) -> SegmentModel {
    (
        header_for(m, key, m.rcv_nxt, flags(false, false, false, true, true)),
        if m.send_window.len() == 0 {
            seq![]
        } else {
            ring_bytes(m.send_window, key, resend_len(m, key))
        },
    )
}

/// `m` with `seg` handed to the transmit path.
pub open spec fn emit(m: TcbView, seg: SegmentModel) -> TcbView {
    TcbView { outbox: m.outbox.push(seg), ..m }
}

/// `m` in state `s`; entering TIME-WAIT (again) starts its clock at `now`.
pub open spec fn enter(m: TcbView, s: TcpState, now: u64) -> TcbView {
    if s == TcpState::TimeWait {
        TcbView { state: s, time_wait_since: Some(now), ..m }
    } else {
        TcbView { state: s, ..m }
    }
}

// ---------------------------------------------------------------------------
// Retransmission queue

/// The first timer whose segment ends exactly at `ack`: the segment that
/// this ACK completes. The round-trip sample comes from it, not from a
/// timer keyed `ack` (which would belong to the next segment); for the SYN
/// this is the timer keyed ISS, which ends at ISS + 1.
pub open spec fn timer_ending_at(ts: Seq<RetransmitTimer>, ack: u32) -> Option<int>
    decreases ts.len(),
{
    if ts.len() == 0 {
        None
    } else {
        match timer_ending_at(ts.drop_last(), ack) {
            Some(i) => Some(i),
            None => if ts.last().end == ack {
                Some(ts.len() - 1)
            } else {
                None
            },
        }
    }
}

/// The timers whose key lies in `[una, nxt)`, in their order.
pub open spec fn outstanding(ts: Seq<RetransmitTimer>, una: u32, nxt: u32) -> Seq<RetransmitTimer>
    decreases ts.len(),
{
    if ts.len() == 0 {
        seq![]
    } else {
        let rest = outstanding(ts.drop_last(), una, nxt);
        if seq_dist(una, ts.last().seq) < seq_dist(una, nxt) {
            rest.push(ts.last())
        } else {
            rest
        }
    }
}

/// The timer whose key comes first from `una` on (the first of equals).
pub open spec fn earliest_timer(ts: Seq<RetransmitTimer>, una: u32) -> Option<int>
    decreases ts.len(),
{
    if ts.len() == 0 {
        None
    } else {
        match earliest_timer(ts.drop_last(), una) {
            None => Some(ts.len() - 1),
            Some(j) => if seq_dist(una, ts.last().seq) < seq_dist(una, ts[j].seq) {
                Some(ts.len() - 1)
            } else {
                Some(j)
            },
        }
    }
}

/// The estimator after an ACK of `ack`: a round-trip sample from the timer
/// of the segment that ends at `ack` (see [`timer_ending_at`]), unless that
/// segment was sent again (Karn's algorithm) or there is none.
pub open spec fn sampled_rto(m: TcbView, ack: u32, now: u64) -> RtoEstimator {
    match timer_ending_at(m.timers, ack) {
        Some(i) => if m.timers[i].retransmitted {
            m.rto
        } else {
            m.rto.sampled(elapsed(now, m.timers[i].sent_at) as u64)
        },
        None => m.rto,
    }
}

/// `m` after an ACK of `ack` that advances `SND.UNA`: the sample, the new
/// `SND.UNA`, and the timers of acknowledged segments purged.
pub open spec fn acked(m: TcbView, ack: u32, now: u64) -> TcbView {
    TcbView {
        rto: sampled_rto(m, ack, now),
        snd_una: ack,
        timers: outstanding(m.timers, ack, m.snd_nxt),
        ..m
    }
}

/// `SND.UNA < ack <= SND.NXT` in the cyclic order from `SND.UNA`.
pub open spec fn ack_advances(m: TcbView, ack: u32) -> bool {
    0 < seq_dist(m.snd_una, ack) <= seq_dist(m.snd_una, m.snd_nxt)
}

// ---------------------------------------------------------------------------
// Out-of-order reassembly

/// The first out-of-order entry that starts at `k`.
pub open spec fn find_partial(ps: Seq<(u32, Seq<u8>)>, k: u32) -> Option<int>
    decreases ps.len(),
{
    if ps.len() == 0 {
        None
    } else {
        match find_partial(ps.drop_last(), k) {
            Some(i) => Some(i),
            None => if ps.last().0 == k {
                Some(ps.len() - 1)
            } else {
                None
            },
        }
    }
}

/// The entries other than those that start at `k`.
pub open spec fn without_key(ps: Seq<(u32, Seq<u8>)>, k: u32) -> Seq<(u32, Seq<u8>)>
    decreases ps.len(),
{
    if ps.len() == 0 {
        seq![]
    } else {
        let rest = without_key(ps.drop_last(), k);
        if ps.last().0 == k {
            rest
        } else {
            rest.push(ps.last())
        }
    }
}

/// The entries that start strictly after `nxt` and within `wnd` of it.
pub open spec fn ahead(ps: Seq<(u32, Seq<u8>)>, nxt: u32, wnd: u16) -> Seq<(u32, Seq<u8>)>
    decreases ps.len(),
{
    if ps.len() == 0 {
        seq![]
    } else {
        let rest = ahead(ps.drop_last(), nxt, wnd);
        let d = seq_dist(nxt, ps.last().0);
        if 0 < d < wnd {
            rest.push(ps.last())
        } else {
            rest
        }
    }
}

/// Moves out-of-order entries that start at `RCV.NXT` to the receive
/// queue, one after another, while there is one.
pub open spec fn reassemble(m: TcbView) -> TcbView
    decreases m.partial_segments.len(),
{
    match find_partial(m.partial_segments, m.rcv_nxt) {
        Some(i) => if 0 <= i < m.partial_segments.len() {
            let data = m.partial_segments[i].1;
            reassemble(
                TcbView {
                    recv_window: m.recv_window + data,
                    rcv_nxt: seq_add(m.rcv_nxt, data.len() as int),
                    partial_segments: m.partial_segments.remove(i),
                    ..m
                },
            )
        } else {
            m
        },
        None => m,
    }
}

/// An in-order payload appended, what follows it reassembled, and the
/// entries left behind dropped.
pub open spec fn deliver(m: TcbView, data: Seq<u8>) -> TcbView {
    let r = reassemble(
        TcbView {
            recv_window: m.recv_window + data,
            rcv_nxt: seq_add(m.rcv_nxt, data.len() as int),
            ..m
        },
    );
    TcbView { partial_segments: ahead(r.partial_segments, r.rcv_nxt, r.rcv_wnd), ..r }
}

/// Reassembly touches only the receive side.
pub proof fn lemma_reassemble_frame(m: TcbView)
    ensures
        reassemble(m) == (TcbView {
            recv_window: reassemble(m).recv_window,
            rcv_nxt: reassemble(m).rcv_nxt,
            partial_segments: reassemble(m).partial_segments,
            ..m
        }),
    decreases m.partial_segments.len(),
{
    match find_partial(m.partial_segments, m.rcv_nxt) {
        Some(i) => if 0 <= i < m.partial_segments.len() {
            let data = m.partial_segments[i].1;
            lemma_reassemble_frame(
                TcbView {
                    recv_window: m.recv_window + data,
                    rcv_nxt: seq_add(m.rcv_nxt, data.len() as int),
                    partial_segments: m.partial_segments.remove(i),
                    ..m
                },
            );
        },
        None => {},
    }
}

/// Every entry that [`ahead`] keeps was an entry before.
pub proof fn lemma_ahead_subset(ps: Seq<(u32, Seq<u8>)>, nxt: u32, wnd: u16)
    ensures
        forall|i: int|
            0 <= i < ahead(ps, nxt, wnd).len() ==> exists|j: int|
                0 <= j < ps.len() && ps[j] == #[trigger] ahead(ps, nxt, wnd)[i],
    decreases ps.len(),
{
    if ps.len() > 0 {
        lemma_ahead_subset(ps.drop_last(), nxt, wnd);
        let rest = ahead(ps.drop_last(), nxt, wnd);
        let out = ahead(ps, nxt, wnd);
        assert forall|i: int| 0 <= i < out.len() implies exists|j: int|
            0 <= j < ps.len() && ps[j] == #[trigger] out[i] by {
            if i < rest.len() {
                assert(out[i] == rest[i]);
                let j = choose|j: int| 0 <= j < ps.drop_last().len() && ps.drop_last()[j] == rest[i];
                assert(ps[j] == ps.drop_last()[j]);
            } else {
                assert(ps[ps.len() - 1] == out[i]);
            }
        }
    }
}

/// Every entry that [`without_key`] keeps was an entry before.
pub proof fn lemma_without_key_subset(ps: Seq<(u32, Seq<u8>)>, k: u32)
    ensures
        forall|i: int|
            0 <= i < without_key(ps, k).len() ==> exists|j: int|
                0 <= j < ps.len() && ps[j] == #[trigger] without_key(ps, k)[i],
    decreases ps.len(),
{
    if ps.len() > 0 {
        lemma_without_key_subset(ps.drop_last(), k);
        let rest = without_key(ps.drop_last(), k);
        let out = without_key(ps, k);
        assert forall|i: int| 0 <= i < out.len() implies exists|j: int|
            0 <= j < ps.len() && ps[j] == #[trigger] out[i] by {
            if i < rest.len() {
                assert(out[i] == rest[i]);
                let j = choose|j: int| 0 <= j < ps.drop_last().len() && ps.drop_last()[j] == rest[i];
                assert(ps[j] == ps.drop_last()[j]);
            } else {
                assert(ps[ps.len() - 1] == out[i]);
            }
        }
    }
}

/// Every timer that [`outstanding`] keeps was a timer before.
pub proof fn lemma_outstanding_subset(ts: Seq<RetransmitTimer>, una: u32, nxt: u32)
    ensures
        forall|i: int|
            0 <= i < outstanding(ts, una, nxt).len() ==> exists|j: int|
                0 <= j < ts.len() && ts[j] == #[trigger] outstanding(ts, una, nxt)[i],
    decreases ts.len(),
{
    if ts.len() > 0 {
        lemma_outstanding_subset(ts.drop_last(), una, nxt);
        let rest = outstanding(ts.drop_last(), una, nxt);
        let out = outstanding(ts, una, nxt);
        assert forall|i: int| 0 <= i < out.len() implies exists|j: int|
            0 <= j < ts.len() && ts[j] == #[trigger] out[i] by {
            if i < rest.len() {
                assert(out[i] == rest[i]);
                let j = choose|j: int| 0 <= j < ts.drop_last().len() && ts.drop_last()[j] == rest[i];
                assert(ts[j] == ts.drop_last()[j]);
            } else {
                assert(ts[ts.len() - 1] == out[i]);
            }
        }
    }
}

/// No two timers share a key.
pub open spec fn timer_keys_distinct(ts: Seq<RetransmitTimer>) -> bool {
    forall|i: int, j: int|
        0 <= i < ts.len() && 0 <= j < ts.len() && i != j ==> (#[trigger] ts[i]).seq != (
        #[trigger] ts[j]).seq
}

/// No two out-of-order entries share a key.
pub open spec fn partial_keys_distinct(ps: Seq<(u32, Seq<u8>)>) -> bool {
    forall|i: int, j: int|
        0 <= i < ps.len() && 0 <= j < ps.len() && i != j ==> (#[trigger] ps[i]).0 != (
        #[trigger] ps[j]).0
}

/// Purging keeps timer keys distinct.
pub proof fn lemma_outstanding_distinct(ts: Seq<RetransmitTimer>, una: u32, nxt: u32)
    requires
        timer_keys_distinct(ts),
    ensures
        timer_keys_distinct(outstanding(ts, una, nxt)),
    decreases ts.len(),
{
    if ts.len() > 0 {
        let d = ts.drop_last();
        assert(timer_keys_distinct(d)) by {
            assert forall|i: int, j: int|
                0 <= i < d.len() && 0 <= j < d.len() && i != j implies (#[trigger] d[i]).seq != (
                #[trigger] d[j]).seq by {
                assert(d[i] == ts[i] && d[j] == ts[j]);
            }
        }
        lemma_outstanding_distinct(d, una, nxt);
        lemma_outstanding_subset(d, una, nxt);
        let rest = outstanding(d, una, nxt);
        let out = outstanding(ts, una, nxt);
        assert forall|i: int, j: int|
            0 <= i < out.len() && 0 <= j < out.len() && i != j implies (#[trigger] out[i]).seq != (
            #[trigger] out[j]).seq by {
            if i < rest.len() && j < rest.len() {
                assert(out[i] == rest[i] && out[j] == rest[j]);
            } else if i < rest.len() {
                assert(out[i] == rest[i]);
                let k = choose|k: int| 0 <= k < d.len() && d[k] == rest[i];
                assert(d[k] == ts[k]);
                assert(out[j] == ts[ts.len() - 1]);
            } else {
                assert(out[j] == rest[j]);
                let k = choose|k: int| 0 <= k < d.len() && d[k] == rest[j];
                assert(d[k] == ts[k]);
                assert(out[i] == ts[ts.len() - 1]);
            }
        }
    }
}

/// Dropping entries from the end keeps keys distinct.
proof fn lemma_partial_drop_last_distinct(ps: Seq<(u32, Seq<u8>)>)
    requires
        partial_keys_distinct(ps),
        ps.len() > 0,
    ensures
        partial_keys_distinct(ps.drop_last()),
{
    let d = ps.drop_last();
    assert forall|i: int, j: int|
        0 <= i < d.len() && 0 <= j < d.len() && i != j implies (#[trigger] d[i]).0 != (
        #[trigger] d[j]).0 by {
        assert(d[i] == ps[i] && d[j] == ps[j]);
    }
}

/// [`ahead`] keeps keys distinct.
pub proof fn lemma_ahead_distinct(ps: Seq<(u32, Seq<u8>)>, nxt: u32, wnd: u16)
    requires
        partial_keys_distinct(ps),
    ensures
        partial_keys_distinct(ahead(ps, nxt, wnd)),
    decreases ps.len(),
{
    if ps.len() > 0 {
        let d = ps.drop_last();
        lemma_partial_drop_last_distinct(ps);
        lemma_ahead_distinct(d, nxt, wnd);
        lemma_ahead_subset(d, nxt, wnd);
        let rest = ahead(d, nxt, wnd);
        let out = ahead(ps, nxt, wnd);
        assert forall|i: int, j: int|
            0 <= i < out.len() && 0 <= j < out.len() && i != j implies (#[trigger] out[i]).0 != (
            #[trigger] out[j]).0 by {
            if i < rest.len() && j < rest.len() {
                assert(out[i] == rest[i] && out[j] == rest[j]);
            } else if i < rest.len() {
                assert(out[i] == rest[i]);
                let k = choose|k: int| 0 <= k < d.len() && d[k] == rest[i];
                assert(d[k] == ps[k]);
                assert(out[j] == ps[ps.len() - 1]);
            } else {
                assert(out[j] == rest[j]);
                let k = choose|k: int| 0 <= k < d.len() && d[k] == rest[j];
                assert(d[k] == ps[k]);
                assert(out[i] == ps[ps.len() - 1]);
            }
        }
    }
}

/// [`without_key`] keeps keys distinct and leaves none equal to `k`.
pub proof fn lemma_without_key_distinct(ps: Seq<(u32, Seq<u8>)>, k: u32)
    requires
        partial_keys_distinct(ps),
    ensures
        partial_keys_distinct(without_key(ps, k)),
        forall|i: int| 0 <= i < without_key(ps, k).len() ==> (#[trigger] without_key(ps, k)[i]).0 != k,
    decreases ps.len(),
{
    if ps.len() > 0 {
        let d = ps.drop_last();
        lemma_partial_drop_last_distinct(ps);
        lemma_without_key_distinct(d, k);
        lemma_without_key_subset(d, k);
        let rest = without_key(d, k);
        let out = without_key(ps, k);
        assert forall|i: int| 0 <= i < out.len() implies (#[trigger] out[i]).0 != k by {
            if i < rest.len() {
                assert(out[i] == rest[i]);
            }
        }
        assert forall|i: int, j: int|
            0 <= i < out.len() && 0 <= j < out.len() && i != j implies (#[trigger] out[i]).0 != (
            #[trigger] out[j]).0 by {
            if i < rest.len() && j < rest.len() {
                assert(out[i] == rest[i] && out[j] == rest[j]);
            } else if i < rest.len() {
                assert(out[i] == rest[i]);
                let q = choose|q: int| 0 <= q < d.len() && d[q] == rest[i];
                assert(d[q] == ps[q]);
                assert(out[j] == ps[ps.len() - 1]);
            } else {
                assert(out[j] == rest[j]);
                let q = choose|q: int| 0 <= q < d.len() && d[q] == rest[j];
                assert(d[q] == ps[q]);
                assert(out[i] == ps[ps.len() - 1]);
            }
        }
    }
}

/// Reassembly keeps out-of-order keys distinct.
pub proof fn lemma_reassemble_distinct(m: TcbView)
    requires
        partial_keys_distinct(m.partial_segments),
    ensures
        partial_keys_distinct(reassemble(m).partial_segments),
    decreases m.partial_segments.len(),
{
    match find_partial(m.partial_segments, m.rcv_nxt) {
        Some(i) => if 0 <= i < m.partial_segments.len() {
            let ps = m.partial_segments;
            let data = ps[i].1;
            let r = ps.remove(i);
            assert forall|a: int, b: int|
                0 <= a < r.len() && 0 <= b < r.len() && a != b implies (#[trigger] r[a]).0 != (
                #[trigger] r[b]).0 by {
                let a2 = if a < i { a } else { a + 1 };
                let b2 = if b < i { b } else { b + 1 };
                assert(r[a] == ps[a2] && r[b] == ps[b2]);
            }
            lemma_reassemble_distinct(
                TcbView {
                    recv_window: m.recv_window + data,
                    rcv_nxt: seq_add(m.rcv_nxt, data.len() as int),
                    partial_segments: r,
                    ..m
                },
            );
        },
        None => {},
    }
}

// ---------------------------------------------------------------------------
// Inbound segments

/// SYN-SENT: wait for the SYN-ACK that acknowledges our SYN.
pub open spec fn on_segment_syn_sent(m: TcbView, seg: SegmentModel, now: u64) -> TcbView {
    let h = seg.0;
    if !h.flags.ack {
        m
    } else if h.flags.rst {
        enter(m, TcpState::Closed, now)
    } else if h.acknowledgment_number != m.snd_nxt {
        emit(
            enter(m, TcpState::CloseWait, now),
            (header_for(m, h.acknowledgment_number, 0, flags(false, false, true, false, false)), seq![]),
        )
    } else if h.flags.syn {
        let m1 = TcbView {
            rcv_nxt: seq_add(h.sequence_number, 1),
            rcv_wnd: h.window_size,
            send_window: Seq::new(h.window_size as nat, |i: int| 0u8),
            ..m
        };
        let m2 = enter(acked(m1, h.acknowledgment_number, now), TcpState::Established, now);
        emit(m2, pure_ack(m2))
    } else {
        m
    }
}

/// Whether our FIN has been sent and acknowledged. The FIN occupies the
/// sequence number `fin_seq`, as the SYN occupies ISS, so the peer's ACK of
/// it is `fin_seq + 1`; that is when `SND.UNA` has passed it.
pub open spec fn our_fin_acked(m: TcbView) -> bool {
    match m.fin_seq {
        Some(f) => m.snd_una == seq_add(f, 1),
        None => false,
    }
}

/// The transition that the acknowledgment of our FIN makes.
pub open spec fn on_fin_acked(m: TcbView, now: u64) -> TcbView {
    match m.state {
        TcpState::FinWait1 => enter(m, TcpState::FinWait2, now),
        TcpState::Closing => enter(m, TcpState::TimeWait, now),
        TcpState::LastAck => enter(m, TcpState::Closed, now),
        TcpState::TimeWait => {
            let m1 = enter(m, TcpState::TimeWait, now);
            emit(m1, pure_ack(m1))
        },
        _ => m,
    }
}

/// Whether the state takes in payload.
pub open spec fn receives_data(s: TcpState) -> bool {
    s == TcpState::Established || s == TcpState::FinWait1 || s == TcpState::FinWait2
}

/// A payload: delivered if it starts at `RCV.NXT`, kept for later if it
/// starts ahead within the window, dropped otherwise; then an ACK.
pub open spec fn on_payload(m: TcbView, seg: SegmentModel) -> TcbView {
    let h = seg.0;
    if seg.1.len() > 0 && receives_data(m.state) {
        let m1 = if h.sequence_number == m.rcv_nxt {
            deliver(m, seg.1)
        } else if seq_dist(m.rcv_nxt, h.sequence_number) < m.rcv_wnd {
            TcbView {
                partial_segments: without_key(m.partial_segments, h.sequence_number).push(
                    (h.sequence_number, seg.1),
                ),
                ..m
            }
        } else {
            m
        };
        emit(m1, pure_ack(m1))
    } else {
        m
    }
}

/// The peer's FIN, at the sequence number that follows its payload, when
/// that is `RCV.NXT`: acknowledged, and the state moves on.
pub open spec fn on_fin(m: TcbView, seg: SegmentModel, now: u64) -> TcbView {
    let h = seg.0;
    if h.flags.fin && seq_add(h.sequence_number, seg.1.len() as int) == m.rcv_nxt {
        let m1 = TcbView { rcv_nxt: seq_add(m.rcv_nxt, 1), ..m };
        let m2 = emit(m1, pure_ack(m1));
        match m.state {
            TcpState::Established => enter(m2, TcpState::CloseWait, now),
            TcpState::FinWait1 => enter(m2, TcpState::Closing, now),
            TcpState::FinWait2 => enter(m2, TcpState::TimeWait, now),
            TcpState::TimeWait => enter(m2, TcpState::TimeWait, now),
            _ => m2,
        }
    } else {
        m
    }
}

/// The states after the handshake: acceptability, RST, SYN, ACK, payload,
/// FIN, in this order.
pub open spec fn on_segment_synchronized(m: TcbView, seg: SegmentModel, now: u64) -> (
    TcbView,
    Result<(), TcpError>,
) {
    let h = seg.0;
    if !segment_acceptable(m.rcv_nxt, m.rcv_wnd, h.sequence_number, seg.1.len()) {
        (
            if h.flags.rst {
                m
            } else {
                emit(m, pure_ack(m))
            },
            Ok(()),
        )
    } else if h.flags.rst {
        (
            if h.sequence_number == m.rcv_nxt {
                enter(m, TcpState::Closed, now)
            } else {
                emit(m, pure_ack(m))
            },
            Ok(()),
        )
    } else if h.flags.syn {
        (m, Err(TcpError::ProtocolViolation))
    } else if !h.flags.ack {
        (m, Ok(()))
    } else {
        let m1 = if ack_advances(m, h.acknowledgment_number) {
            acked(m, h.acknowledgment_number, now)
        } else {
            m
        };
        if our_fin_acked(m1) && m1.state == TcpState::LastAck {
            (on_fin_acked(m1, now), Ok(()))
        } else {
            let m2 = if our_fin_acked(m1) {
                on_fin_acked(m1, now)
            } else {
                m1
            };
            (on_fin(on_payload(m2, seg), seg, now), Ok(()))
        }
    }
}

/// CLOSED: every segment but a RST is answered with a RST.
pub open spec fn on_segment_closed(m: TcbView, seg: SegmentModel) -> TcbView {
    let h = seg.0;
    if h.flags.rst {
        m
    } else if !h.flags.ack {
        emit(
            m,
            (
                header_for(
                    m,
                    0,
                    seq_add(h.sequence_number, seg.1.len() as int),
                    flags(false, false, true, false, true),
                ),
                seq![],
            ),
        )
    } else {
        emit(
            m,
            (header_for(m, h.acknowledgment_number, 0, flags(false, false, true, false, false)), seq![]),
        )
    }
}

/// The connection after the inbound segment `seg` arrived at `now`.
pub open spec fn on_segment(m: TcbView, seg: SegmentModel, now: u64) -> (
    TcbView,
    Result<(), TcpError>,
) {
    match m.state {
        TcpState::Listen | TcpState::SynReceived => (m, Err(TcpError::NotImplemented)),
        TcpState::SynSent => (on_segment_syn_sent(m, seg, now), Ok(())),
        TcpState::Closed => (on_segment_closed(m, seg), Ok(())),
        _ => on_segment_synchronized(m, seg, now),
    }
}


// ---------------------------------------------------------------------------
// Timer tick

/// The segment that a retransmission of the timer keyed `key` sends: the
/// SYN, our FIN, or the data from `key` on.
pub open spec fn retransmission(m: TcbView, key: u32) -> SegmentModel {
    if key == m.iss {
        syn_segment(m)
    } else if m.fin_seq == Some(key) {
        fin_segment(m, key)
    } else {
        data_segment(m, key)
    }
}

/// Our FIN sent at `SND.NXT`. It occupies that sequence number, so
/// `SND.NXT` moves one past it, and it gets a retransmission timer of its
/// own, keyed `fin_seq`, like the SYN and the data.
pub open spec fn send_fin(m: TcbView, now: u64) -> TcbView {
    let f = m.snd_nxt;
    let m1 = TcbView {
        fin_seq: Some(f),
        snd_nxt: seq_add(f, 1),
        timers: m.timers.push(
            RetransmitTimer { seq: f, end: seq_add(f, 1), retransmitted: false, sent_at: now },
        ),
        ..m
    };
    emit(m1, fin_segment(m1, f))
}

/// The connection after a tick at `now`, and whether it can be cleaned up.
/// The earliest timer, if it has expired, is marked, restarted and its
/// segment sent again, with the timeout doubled; with no timer left, a
/// FIN-WAIT-1 connection sends its FIN, and a TIME-WAIT connection is done
/// after twice the maximum segment lifetime.
pub open spec fn on_tick(m: TcbView, now: u64) -> (TcbView, bool) {
    match earliest_timer(m.timers, m.snd_una) {
        Some(i) => if 0 <= i < m.timers.len() && elapsed(now, m.timers[i].sent_at) >= m.rto.rto {
            let t = m.timers[i];
            let m1 = TcbView {
                timers: m.timers.update(
                    i,
                    RetransmitTimer { retransmitted: true, sent_at: now, ..t },
                ),
                rto: m.rto.backed_off(),
                ..m
            };
            (emit(m1, retransmission(m1, t.seq)), false)
        } else {
            (m, false)
        },
        None => if m.state == TcpState::FinWait1 && m.fin_seq is None {
            (send_fin(m, now), false)
        } else if m.state == TcpState::TimeWait {
            match m.time_wait_since {
                Some(since) => (m, elapsed(now, since) > TIME_WAIT_US),
                None => (m, false),
            }
        } else {
            (m, false)
        },
    }
}

// ---------------------------------------------------------------------------
// Application calls

/// The bytes that a write of `p` bytes can place: the free part of the send
/// ring, and no more than one datagram carries.
pub open spec fn write_capacity(m: TcbView, p: int) -> int {
    let free = m.send_window.len() - in_flight(m);
    let room = if free <= MAX_TCP_PAYLOAD {
        free
    } else {
        MAX_TCP_PAYLOAD as int
    };
    if room <= 0 {
        0
    } else if p < room {
        p
    } else {
        room
    }
}

/// The ring with `data` written from sequence number `from` on, each byte
/// into its own slot, in order.
pub open spec fn ring_written(ring: Seq<u8>, from: u32, data: Seq<u8>) -> Seq<u8>
    decreases data.len(),
{
    if data.len() == 0 || ring.len() == 0 {
        ring
    } else {
        ring_written(ring, from, data.drop_last()).update(
            ring_slot(ring.len() as int, seq_add(from, data.len() - 1)),
            data.last(),
        )
    }
}

/// The connection after the application wrote `payload` at `now`, and the
/// number of bytes taken.
pub open spec fn on_write(m: TcbView, payload: Seq<u8>, now: u64) -> (
    TcbView,
    Result<usize, TcpError>,
) {
    if m.state != TcpState::Established {
        (m, Err(TcpError::NotConnected))
    } else {
        let n = write_capacity(m, payload.len() as int);
        if n == 0 {
            (m, Ok(0))
        } else {
            let data = payload.subrange(0, n);
            let m1 = TcbView {
                send_window: ring_written(m.send_window, m.snd_nxt, data),
                timers: m.timers.push(
                    RetransmitTimer {
                        seq: m.snd_nxt,
                        end: seq_add(m.snd_nxt, n),
                        retransmitted: false,
                        sent_at: now,
                    },
                ),
                snd_nxt: seq_add(m.snd_nxt, n),
                ..m
            };
            (
                emit(
                    m1,
                    (header_for(m, m.snd_nxt, m.rcv_nxt, flags(false, false, false, true, true)), data),
                ),
                Ok(n as usize),
            )
        }
    }
}

/// Whether the state lets the application read.
pub open spec fn readable(s: TcpState) -> bool {
    s == TcpState::Established || s == TcpState::FinWait1 || s == TcpState::FinWait2
        || s == TcpState::CloseWait
}

/// How many bytes a read into a buffer of `cap` bytes takes, or the error.
/// In a state that forbids reading, what was received is still handed out;
/// the error comes once it is gone.
pub open spec fn read_count(m: TcbView, cap: int) -> Result<usize, TcpError> {
    if !readable(m.state) && m.recv_window.len() == 0 {
        Err(TcpError::NotConnected)
    } else if cap < m.recv_window.len() {
        Ok(cap as usize)
    } else {
        Ok(m.recv_window.len() as usize)
    }
}

/// The connection after the application's close: SYN-SENT aborts,
/// ESTABLISHED and CLOSE-WAIT start the orderly close, and other states are
/// left as they are.
pub open spec fn on_close(m: TcbView) -> TcbView {
    match m.state {
        TcpState::SynSent => TcbView { state: TcpState::Closed, ..m },
        TcpState::Established => TcbView { state: TcpState::FinWait1, ..m },
        TcpState::CloseWait => TcbView { state: TcpState::LastAck, ..m },
        _ => m,
    }
}


// ---------------------------------------------------------------------------
// Creation and invariant

/// A connection from `local` to `remote` that has not opened yet, with
/// initial send sequence number `iss`.
pub open spec fn initial(local: Endpoint, remote: Endpoint, iss: u32) -> TcbView {
    TcbView {
        local,
        remote,
        state: TcpState::Listen,
        iss,
        snd_una: iss,
        snd_nxt: seq_add(iss, 1),
        rcv_nxt: 0,
        rcv_wnd: 0xFFFF,
        fin_seq: None,
        send_window: seq![],
        recv_window: seq![],
        partial_segments: seq![],
        timers: seq![],
        rto: RtoEstimator { srtt: 0, rttvar: 0, rto: crate::rto::INITIAL_RTO_US as u128 },
        time_wait_since: None,
        outbox: seq![],
    }
}

/// The active open: the SYN sent, with its timer, and SYN-SENT entered.
pub open spec fn on_connect(m: TcbView, now: u64) -> TcbView {
    let m1 = TcbView {
        state: TcpState::SynSent,
        timers: seq![
            RetransmitTimer {
                seq: m.iss,
                end: seq_add(m.iss, 1),
                retransmitted: false,
                sent_at: now,
            },
        ],
        ..m
    };
    emit(m1, syn_segment(m1))
}

/// What holds of every connection between operations: the send ring fits
/// the 16-bit window; no more is in flight than the ring holds, plus the
/// SYN or FIN; every timer is keyed inside `[SND.UNA, SND.NXT)`.
pub open spec fn tcb_wf(m: TcbView) -> bool {
    &&& m.send_window.len() <= 0xFFFF
    &&& m.rto.wf()
    &&& in_flight(m) <= m.send_window.len() + 1
    &&& (m.state == TcpState::Established || (m.state == TcpState::FinWait1 && m.fin_seq is None))
        ==> in_flight(m) <= m.send_window.len()
    &&& forall|i: int|
        0 <= i < m.timers.len() ==> seq_dist(m.snd_una, #[trigger] m.timers[i].seq) < in_flight(m)
    &&& timer_keys_distinct(m.timers)
    &&& partial_keys_distinct(m.partial_segments)
    &&& m.state == TcpState::Listen ==> m.timers.len() == 0 && m.snd_una == m.iss && in_flight(m)
        == 1
    &&& m.state == TcpState::SynSent ==> m.snd_una == m.iss && in_flight(m) == 1
}

} // verus!
