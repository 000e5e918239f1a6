//! The transmission control block: one TCP connection's state machine.
use crate::rto::RtoEstimator;
use crate::segment::{Endpoint, Segment, TcpFlags, TcpHeaderFields};
use crate::seqnum::{advance, advance_len, dist, is_acceptable, lemma_dist_add, seq_add, seq_dist};
use crate::transitions::{
    ack_advances, acked, ahead, deliver, earliest_timer, elapsed, emit, enter, find_partial,
    header_for, in_flight, initial, lemma_reassemble_frame, on_close, on_connect, on_fin,
    on_fin_acked, on_payload, on_segment, on_segment_closed, on_segment_syn_sent,
    on_segment_synchronized, on_tick, on_write, our_fin_acked, outstanding, pure_ack, read_count,
    reassemble, retransmission, ring_bytes, resend_len, ring_written, sampled_rto, send_fin,
    lemma_ahead_distinct, lemma_outstanding_distinct, lemma_reassemble_distinct,
    lemma_without_key_distinct, tcb_wf, timer_ending_at, without_key, write_capacity, RetransmitTimer, SegmentModel, TcbView,
    TcpError, TcpState, TIME_WAIT_US,
};
use crate::wire::{encode_datagram, ipv4_tcp_datagram, MAX_TCP_PAYLOAD};
use vstd::prelude::*;
use vstd::slice::slice_to_vec;

verus! {

/// An out-of-order payload kept until the bytes before it arrive.
struct PartialSegment {
    seq: u32,
    data: Vec<u8>,
}

/// One TCP connection: sequence state, buffers, retransmission timers and
/// the queue of segments to transmit.
pub struct TcpSocket {
    local: Endpoint,
    remote: Endpoint,
    state: TcpState,
    iss: u32,
    snd_una: u32,
    snd_nxt: u32,
    rcv_nxt: u32,
    rcv_wnd: u16,
    fin_seq: Option<u32>,
    send_window: Vec<u8>,
    recv_window: Vec<u8>,
    partial_segments: Vec<PartialSegment>,
    timers: Vec<RetransmitTimer>,
    rto: RtoEstimator,
    time_wait_since: Option<u64>,
    outbox: Vec<Segment>,
}

/// The segments as header and payload values.
pub open spec fn segments_model(v: Seq<Segment>) -> Seq<SegmentModel> {
    v.map_values(|s: Segment| s.model())
}

/// The connection after a read that returned `r`: the bytes handed out
/// leave the receive queue.
pub open spec fn after_read(m: TcbView, r: Result<usize, TcpError>) -> TcbView {
    match r {
        Ok(n) => TcbView {
            recv_window: m.recv_window.subrange(n as int, m.recv_window.len() as int),
            ..m
        },
        Err(_) => m,
    }
}

/// The buffer `buf` after a read that returned `r`: the first `n` received
/// bytes at its front, the rest as it was.
pub open spec fn read_into(m: TcbView, buf: Seq<u8>, r: Result<usize, TcpError>) -> Seq<u8> {
    match r {
        Ok(n) => m.recv_window.subrange(0, n as int) + buf.subrange(n as int, buf.len() as int),
        Err(_) => buf,
    }
}

/// The datagrams that the codec writes for the segments `segs` from `src`
/// to `dst`, leaving out those whose payload does not fit.
pub open spec fn datagrams(src: u32, dst: u32, segs: Seq<SegmentModel>) -> Seq<Seq<u8>>
    decreases segs.len(),
{
    if segs.len() == 0 {
        seq![]
    } else {
        let rest = datagrams(src, dst, segs.drop_last());
        let s = segs.last();
        if s.1.len() <= MAX_TCP_PAYLOAD {
            rest.push(ipv4_tcp_datagram(src, dst, s.0, s.1))
        } else {
            rest
        }
    }
}

spec fn partials_model(v: Seq<PartialSegment>) -> Seq<(u32, Seq<u8>)> {
    v.map_values(|p: PartialSegment| (p.seq, p.data@))
}

impl View for TcpSocket {
    type V = TcbView;

    closed spec fn view(&self) -> TcbView {
        TcbView {
            local: self.local,
            remote: self.remote,
            state: self.state,
            iss: self.iss,
            snd_una: self.snd_una,
            snd_nxt: self.snd_nxt,
            rcv_nxt: self.rcv_nxt,
            rcv_wnd: self.rcv_wnd,
            fin_seq: self.fin_seq,
            send_window: self.send_window@,
            recv_window: self.recv_window@,
            partial_segments: partials_model(self.partial_segments@),
            timers: self.timers@,
            rto: self.rto,
            time_wait_since: self.time_wait_since,
            outbox: segments_model(self.outbox@),
        }
    }
}

/// Relies on `rand::random`: a uniformly drawn 32-bit value; nothing is
/// known of which.
#[verifier::external_body]
pub(crate) fn random_u32() -> u32 {
    rand::random::<u32>()
}


/// The timers kept by [`outstanding`] are those keyed inside `[una, nxt)`.
proof fn lemma_outstanding(ts: Seq<RetransmitTimer>, una: u32, nxt: u32)
    ensures
        forall|i: int|
            0 <= i < outstanding(ts, una, nxt).len() ==> seq_dist(
                una,
                #[trigger] outstanding(ts, una, nxt)[i].seq,
            ) < seq_dist(una, nxt),
    decreases ts.len(),
{
    if ts.len() > 0 {
        lemma_outstanding(ts.drop_last(), una, nxt);
        let rest = outstanding(ts.drop_last(), una, nxt);
        let out = outstanding(ts, una, nxt);
        assert forall|i: int| 0 <= i < out.len() implies seq_dist(una, #[trigger] out[i].seq)
            < seq_dist(una, nxt) by {
            if i < rest.len() {
                assert(out[i] == rest[i]);
            }
        }
    }
}

/// A point `b` between `a` and `c` splits the distance from `a` to `c`.
proof fn lemma_dist_sub(a: u32, b: u32, c: u32)
    requires
        seq_dist(a, b) <= seq_dist(a, c),
    ensures
        seq_dist(b, c) == seq_dist(a, c) - seq_dist(a, b),
{
}

impl TcpSocket {
    /// The invariant of the connection.
    pub open spec fn wf(&self) -> bool {
        tcb_wf(self@)
    }

    /// A connection from `local` to `remote` with a random initial send
    /// sequence number.
    pub fn new(local: Endpoint, remote: Endpoint) -> (r: Self)
        ensures
            r@ == initial(local, remote, r@.iss),
            r.wf(),
    {
        Self::with_iss(local, remote, random_u32())
    }

    /// A connection from `local` to `remote` with initial send sequence
    /// number `iss`.
    pub fn with_iss(local: Endpoint, remote: Endpoint, iss: u32) -> (r: Self)
        ensures
            r@ == initial(local, remote, iss),
            r.wf(),
    {
        let r = TcpSocket {
            local,
            remote,
            state: TcpState::Listen,
            iss,
            snd_una: iss,
            snd_nxt: advance(iss, 1),
            rcv_nxt: 0,
            rcv_wnd: 0xFFFF,
            fin_seq: None,
            send_window: Vec::new(),
            recv_window: Vec::new(),
            partial_segments: Vec::new(),
            timers: Vec::new(),
            rto: RtoEstimator::new(),
            time_wait_since: None,
            outbox: Vec::new(),
        };
        assert(r@ =~= initial(local, remote, iss));
        assert(in_flight(r@) == 1);
        r
    }

    fn header(&self, seq: u32, ack: u32, flags: TcpFlags) -> (r: TcpHeaderFields)
        ensures
            r == header_for(self@, seq, ack, flags),
    {
        TcpHeaderFields {
            source_port: self.local.port,
            destination_port: self.remote.port,
            sequence_number: seq,
            acknowledgment_number: ack,
            flags,
            window_size: self.rcv_wnd,
        }
    }

    fn emit(&mut self, header: TcpHeaderFields, payload: Vec<u8>)
        ensures
            final(self)@ == emit(old(self)@, (header, payload@)),
    {
        let ghost before = self.outbox@;
        self.outbox.push(Segment { header, payload });
        assert(segments_model(self.outbox@) =~= segments_model(before).push((header, payload@)));
        assert(self@ =~= emit(old(self)@, (header, payload@)));
    }

    fn emit_ack(&mut self)
        ensures
            final(self)@ == emit(old(self)@, pure_ack(old(self)@)),
    {
        let h = self.header(
            self.snd_nxt,
            self.rcv_nxt,
            TcpFlags { fin: false, syn: false, rst: false, psh: false, ack: true },
        );
        let empty: Vec<u8> = Vec::new();
        assert(empty@ =~= seq![]);
        self.emit(h, empty);
    }

    fn set_state(&mut self, s: TcpState, now: u64)
        ensures
            final(self)@ == enter(old(self)@, s, now),
    {
        if s == TcpState::TimeWait {
            self.time_wait_since = Some(now);
        }
        self.state = s;
        assert(self@ =~= enter(old(self)@, s, now));
    }

    /// The active open: sends the SYN, starts its timer, and enters
    /// SYN-SENT.
    pub fn connect(&mut self, now: u64)
        requires
            old(self).wf(),
            old(self)@.state == TcpState::Listen,
        ensures
            final(self)@ == on_connect(old(self)@, now),
            final(self).wf(),
    {
        self.state = TcpState::SynSent;
        self.timers.push(
            RetransmitTimer {
                seq: self.iss,
                end: advance(self.iss, 1),
                retransmitted: false,
                sent_at: now,
            },
        );
        let h = self.header(
            self.iss,
            0,
            TcpFlags { fin: false, syn: true, rst: false, psh: false, ack: false },
        );
        proof {
            let m = old(self)@;
            let m1 = TcbView {
                state: TcpState::SynSent,
                timers: seq![
                    RetransmitTimer {
                        seq: m.iss,
                        end: seq_add(m.iss, 1),
                        retransmitted: false,
                        sent_at: now,
                    },
                ],
                ..m
            };
            assert(self@ =~= m1);
        }
        let empty: Vec<u8> = Vec::new();
        assert(empty@ =~= seq![]);
        self.emit(h, empty);
        assert(self@ =~= on_connect(old(self)@, now));
    }

    /// Hands the application up to `buf.len()` received bytes, oldest
    /// first, and returns how many.
    pub fn read(&mut self, buf: &mut [u8]) -> (r: Result<usize, TcpError>)
        requires
            old(self).wf(),
        ensures
            r == read_count(old(self)@, old(buf)@.len() as int),
            final(self)@ == after_read(old(self)@, r),
            final(buf)@ == read_into(old(self)@, old(buf)@, r),
            final(self).wf(),
    {
        let readable = match self.state {
            TcpState::Established | TcpState::FinWait1 | TcpState::FinWait2
            | TcpState::CloseWait => true,
            _ => false,
        };
        if !readable && self.recv_window.len() == 0 {
            return Err(TcpError::NotConnected);
        }
        let n = if buf.len() < self.recv_window.len() {
            buf.len()
        } else {
            self.recv_window.len()
        };
        let mut i: usize = 0;
        while i < n
            invariant
                n <= buf@.len(),
                n <= self.recv_window@.len(),
                self.recv_window@ == old(self)@.recv_window,
                buf@.len() == old(buf)@.len(),
                i <= n,
                buf@ == self.recv_window@.subrange(0, i as int) + old(buf)@.subrange(
                    i as int,
                    old(buf)@.len() as int,
                ),
            decreases n - i,
        {
            buf[i] = self.recv_window[i];
            i = i + 1;
            assert(buf@ =~= self.recv_window@.subrange(0, i as int) + old(buf)@.subrange(
                i as int,
                old(buf)@.len() as int,
            ));
        }
        let rest = self.recv_window.split_off(n);
        self.recv_window = rest;
        assert(self@ =~= TcbView {
            recv_window: old(self)@.recv_window.subrange(n as int, old(self)@.recv_window.len() as int),
            ..old(self)@
        });
        Ok(n)
    }

    /// Takes as much of `payload` as the send ring has room for, sends it
    /// with PSH set and a timer of its own, and returns how much was taken.
    pub fn write(&mut self, payload: &[u8], now: u64) -> (r: Result<usize, TcpError>)
        requires
            old(self).wf(),
        ensures
            (final(self)@, r) == on_write(old(self)@, payload@, now),
            final(self).wf(),
    {
        if self.state != TcpState::Established {
            return Err(TcpError::NotConnected);
        }
        let w = self.send_window.len();
        let flight = dist(self.snd_una, self.snd_nxt) as usize;
        let room = if flight >= w {
            0
        } else if w - flight <= MAX_TCP_PAYLOAD {
            w - flight
        } else {
            MAX_TCP_PAYLOAD
        };
        let n = if payload.len() < room {
            payload.len()
        } else {
            room
        };
        assert(n == write_capacity(self@, payload@.len() as int));
        if n == 0 {
            return Ok(0);
        }
        let ghost m = self@;
        let mut i: usize = 0;
        while i < n
            invariant
                0 < n <= w,
                w <= 0xFFFF,
                w == self.send_window@.len(),
                w == m.send_window.len(),
                n <= payload@.len(),
                i <= n,
                self@ == (TcbView { send_window: self.send_window@, ..m }),
                self.send_window@ == ring_written(
                    m.send_window,
                    m.snd_nxt,
                    payload@.subrange(0, i as int),
                ),
            decreases n - i,
        {
            let idx = (advance(self.snd_nxt, i as u32) as usize) % w;
            self.send_window[idx] = payload[i];
            i = i + 1;
            assert(payload@.subrange(0, i as int).drop_last() =~= payload@.subrange(0, i - 1));
            assert(self.send_window@ =~= ring_written(
                m.send_window,
                m.snd_nxt,
                payload@.subrange(0, i as int),
            ));
        }
        let key = self.snd_nxt;
        let end = advance(key, n as u32);
        self.timers.push(RetransmitTimer { seq: key, end, retransmitted: false, sent_at: now });
        self.snd_nxt = end;
        let h = self.header(
            key,
            self.rcv_nxt,
            TcpFlags { fin: false, syn: false, rst: false, psh: true, ack: true },
        );
        let data = slice_to_vec(&payload[0..n]);
        self.emit(h, data);
        proof {
            assert(self@ =~= on_write(m, payload@, now).0);
            lemma_dist_add(m.snd_una, m.snd_nxt, n as int);
        }
        Ok(n)
    }

    /// Takes the segments queued for transmission, oldest first.
    pub fn take_segments(&mut self) -> (r: Vec<Segment>)
        requires
            old(self).wf(),
        ensures
            segments_model(r@) == old(self)@.outbox,
            final(self)@ == (TcbView { outbox: seq![], ..old(self)@ }),
            final(self).wf(),
    {
        let r = self.outbox.split_off(0);
        assert(self@ =~= TcbView { outbox: seq![], ..old(self)@ });
        assert(r@ =~= old(self).outbox@);
        r
    }

    /// Takes the segments queued for transmission as IPv4 datagrams from
    /// the local to the remote address, oldest first. A segment whose
    /// payload does not fit one datagram is dropped.
    pub fn take_datagrams(&mut self) -> (r: Vec<Vec<u8>>)
        requires
            old(self).wf(),
        ensures
            r@.map_values(|d: Vec<u8>| d@) == datagrams(
                old(self)@.local.addr,
                old(self)@.remote.addr,
                old(self)@.outbox,
            ),
            final(self)@ == (TcbView { outbox: seq![], ..old(self)@ }),
            final(self).wf(),
    {
        let segs = self.take_segments();
        let mut out: Vec<Vec<u8>> = Vec::new();
        let mut i: usize = 0;
        while i < segs.len()
            invariant
                i <= segs@.len(),
                out@.map_values(|d: Vec<u8>| d@) == datagrams(
                    self.local.addr,
                    self.remote.addr,
                    segments_model(segs@.subrange(0, i as int)),
                ),
            decreases segs@.len() - i,
        {
            let seg = &segs[i];
            let ghost before = out@;
            assert(segments_model(segs@.subrange(0, i + 1)).drop_last() =~= segments_model(
                segs@.subrange(0, i as int),
            ));
            if let Some(d) = encode_datagram(
                self.local.addr,
                self.remote.addr,
                seg.header,
                seg.payload.as_slice(),
            ) {
                out.push(d);
                assert(out@.map_values(|d: Vec<u8>| d@) =~= before.map_values(|d: Vec<u8>| d@).push(
                    d@,
                ));
            }
            i = i + 1;
        }
        assert(segs@.subrange(0, i as int) =~= segs@);
        out
    }

    /// The connection's state.
    pub fn state(&self) -> (r: TcpState)
        ensures
            r == self@.state,
    {
        self.state
    }

    /// The oldest unacknowledged sequence number, `SND.UNA`.
    pub fn send_unack(&self) -> (r: u32)
        ensures
            r == self@.snd_una,
    {
        self.snd_una
    }

    /// The next sequence number to send, `SND.NXT`.
    pub fn send_next(&self) -> (r: u32)
        ensures
            r == self@.snd_nxt,
    {
        self.snd_nxt
    }

    /// The next sequence number expected from the peer, `RCV.NXT`.
    pub fn recv_next(&self) -> (r: u32)
        ensures
            r == self@.rcv_nxt,
    {
        self.rcv_nxt
    }

    /// The initial send sequence number.
    pub fn initial_sequence(&self) -> (r: u32)
        ensures
            r == self@.iss,
    {
        self.iss
    }

    /// The local endpoint.
    pub fn local(&self) -> (r: Endpoint)
        ensures
            r == self@.local,
    {
        self.local
    }

    /// The remote endpoint.
    pub fn remote(&self) -> (r: Endpoint)
        ensures
            r == self@.remote,
    {
        self.remote
    }

    /// The length of the send ring: the window the peer advertised in its
    /// SYN-ACK.
    pub fn send_window_len(&self) -> (r: usize)
        ensures
            r == self@.send_window.len(),
    {
        self.send_window.len()
    }

    /// How many received bytes wait to be read.
    pub fn recv_window_len(&self) -> (r: usize)
        ensures
            r == self@.recv_window.len(),
    {
        self.recv_window.len()
    }

    /// How many out-of-order payloads are kept.
    pub fn partial_segment_count(&self) -> (r: usize)
        ensures
            r == self@.partial_segments.len(),
    {
        self.partial_segments.len()
    }

    /// The retransmission estimator.
    pub fn rto(&self) -> (r: RtoEstimator)
        ensures
            r == self@.rto,
    {
        self.rto
    }

    /// The sequence number of our FIN, once sent.
    pub fn fin_seq(&self) -> (r: Option<u32>)
        ensures
            r == self@.fin_seq,
    {
        self.fin_seq
    }

    /// The retransmission timers.
    pub fn timers(&self) -> (r: Vec<RetransmitTimer>)
        ensures
            r@ == self@.timers,
    {
        let mut r: Vec<RetransmitTimer> = Vec::new();
        let mut i: usize = 0;
        while i < self.timers.len()
            invariant
                i <= self.timers@.len(),
                r@ == self.timers@.subrange(0, i as int),
            decreases self.timers@.len() - i,
        {
            r.push(self.timers[i]);
            i = i + 1;
            assert(r@ =~= self.timers@.subrange(0, i as int));
        }
        assert(self.timers@.subrange(0, i as int) =~= self.timers@);
        r
    }


    fn find_timer_ending(&self, ack: u32) -> (r: Option<usize>)
        ensures
            r matches Some(i) ==> timer_ending_at(self@.timers, ack) == Some(i as int) && i
                < self@.timers.len(),
            r is None ==> timer_ending_at(self@.timers, ack) is None,
    {
        let mut found: Option<usize> = None;
        let mut i: usize = 0;
        while i < self.timers.len()
            invariant
                i <= self.timers@.len(),
                match timer_ending_at(self.timers@.subrange(0, i as int), ack) {
                    Some(j) => found == Some(j as usize) && 0 <= j < i,
                    None => found is None,
                },
            decreases self.timers@.len() - i,
        {
            assert(self.timers@.subrange(0, i + 1).drop_last() =~= self.timers@.subrange(
                0,
                i as int,
            ));
            if found.is_none() && self.timers[i].end == ack {
                found = Some(i);
            }
            i = i + 1;
        }
        assert(self.timers@.subrange(0, i as int) =~= self.timers@);
        found
    }

    fn purge_timers(&mut self)
        ensures
            final(self)@ == (TcbView {
                timers: outstanding(old(self)@.timers, old(self)@.snd_una, old(self)@.snd_nxt),
                ..old(self)@
            }),
    {
        let ghost ts = self.timers@;
        let mut rest = self.timers.split_off(0);
        let ghost taken = 0int;
        while rest.len() > 0
            invariant
                0 <= taken <= ts.len(),
                rest@ == ts.subrange(taken, ts.len() as int),
                self.timers@ == outstanding(ts.subrange(0, taken), self.snd_una, self.snd_nxt),
                self@ == (TcbView { timers: self.timers@, ..old(self)@ }),
            decreases rest@.len(),
        {
            let t = rest.remove(0);
            assert(ts.subrange(0, taken + 1).drop_last() =~= ts.subrange(0, taken));
            if dist(self.snd_una, t.seq) < dist(self.snd_una, self.snd_nxt) {
                self.timers.push(t);
            }
            proof {
                taken = taken + 1;
            }
            assert(rest@ =~= ts.subrange(taken, ts.len() as int));
        }
        assert(ts.subrange(0, taken) =~= ts);
    }

    fn on_ack_advance(&mut self, ack: u32, now: u64)
        requires
            old(self).wf(),
            old(self)@.state != TcpState::Listen,
            ack_advances(old(self)@, ack),
        ensures
            final(self)@ == acked(old(self)@, ack, now),
            final(self)@.rto.wf(),
            forall|i: int|
                0 <= i < final(self)@.timers.len() ==> seq_dist(
                    final(self)@.snd_una,
                    #[trigger] final(self)@.timers[i].seq,
                ) < in_flight(final(self)@),
            in_flight(final(self)@) <= in_flight(old(self)@),
            old(self)@.state != TcpState::SynSent ==> final(self).wf(),
    {
        let ghost m = self@;
        let found = self.find_timer_ending(ack);
        match found {
            Some(i) => {
                assert(timer_ending_at(m.timers, ack) == Some(i as int));
                if !self.timers[i].retransmitted {
                    let sent_at = self.timers[i].sent_at;
                    let r = if now >= sent_at {
                        now - sent_at
                    } else {
                        0
                    };
                    assert(r == elapsed(now, m.timers[i as int].sent_at));
                    self.rto.on_sample(r);
                }
            },
            None => {
                assert(timer_ending_at(m.timers, ack) is None);
            },
        }
        assert(self.rto == sampled_rto(m, ack, now));
        self.snd_una = ack;
        self.purge_timers();
        assert(self@ =~= acked(m, ack, now));
        proof {
            lemma_outstanding(m.timers, ack, m.snd_nxt);
            lemma_outstanding_distinct(m.timers, ack, m.snd_nxt);
            lemma_dist_sub(m.snd_una, ack, m.snd_nxt);
        }
    }


    fn find_partial_at(&self, k: u32) -> (r: Option<usize>)
        ensures
            r matches Some(i) ==> find_partial(self@.partial_segments, k) == Some(i as int) && i
                < self@.partial_segments.len(),
            r is None ==> find_partial(self@.partial_segments, k) is None,
    {
        let ghost ps = self@.partial_segments;
        let mut found: Option<usize> = None;
        let mut i: usize = 0;
        while i < self.partial_segments.len()
            invariant
                i <= self.partial_segments@.len(),
                ps == partials_model(self.partial_segments@),
                found matches Some(j) ==> find_partial(ps.subrange(0, i as int), k) == Some(
                    j as int,
                ) && j < i,
                found is None ==> find_partial(ps.subrange(0, i as int), k) is None,
            decreases self.partial_segments@.len() - i,
        {
            assert(ps.subrange(0, i + 1).drop_last() =~= ps.subrange(0, i as int));
            if found.is_none() && self.partial_segments[i].seq == k {
                found = Some(i);
            }
            i = i + 1;
        }
        assert(ps.subrange(0, i as int) =~= ps);
        found
    }

    fn insert_partial(&mut self, k: u32, data: Vec<u8>)
        ensures
            final(self)@ == (TcbView {
                partial_segments: without_key(old(self)@.partial_segments, k).push((k, data@)),
                ..old(self)@
            }),
    {
        let ghost ps = self@.partial_segments;
        let mut rest = self.partial_segments.split_off(0);
        let ghost taken = 0int;
        while rest.len() > 0
            invariant
                0 <= taken <= ps.len(),
                partials_model(rest@) == ps.subrange(taken, ps.len() as int),
                partials_model(self.partial_segments@) == without_key(ps.subrange(0, taken), k),
                self@ == (TcbView {
                    partial_segments: partials_model(self.partial_segments@),
                    ..old(self)@
                }),
            decreases rest@.len(),
        {
            let ghost before = self.partial_segments@;
            let ghost rest_before = rest@;
            assert(partials_model(rest_before).len() == rest_before.len());
            assert(taken < ps.len());
            let p = rest.remove(0);
            assert(ps.subrange(0, taken + 1).drop_last() =~= ps.subrange(0, taken));
            assert(partials_model(rest_before)[0] == ps[taken]);
            if p.seq != k {
                self.partial_segments.push(p);
                assert(partials_model(self.partial_segments@) =~= partials_model(before).push(
                    ps[taken],
                ));
            }
            proof {
                taken = taken + 1;
            }
            assert(rest@ =~= rest_before.subrange(1, rest_before.len() as int));
            assert(partials_model(rest@) =~= partials_model(rest_before).subrange(
                1,
                rest_before.len() as int,
            ));
            assert(partials_model(rest@) =~= ps.subrange(taken, ps.len() as int));
        }
        assert(ps.subrange(0, taken) =~= ps);
        let ghost before = self.partial_segments@;
        self.partial_segments.push(PartialSegment { seq: k, data });
        assert(partials_model(self.partial_segments@) =~= partials_model(before).push((k, data@)));
        assert(self@ =~= TcbView {
            partial_segments: without_key(old(self)@.partial_segments, k).push((k, data@)),
            ..old(self)@
        });
    }

    fn keep_ahead(&mut self)
        ensures
            final(self)@ == (TcbView {
                partial_segments: ahead(
                    old(self)@.partial_segments,
                    old(self)@.rcv_nxt,
                    old(self)@.rcv_wnd,
                ),
                ..old(self)@
            }),
    {
        let ghost ps = self@.partial_segments;
        let mut rest = self.partial_segments.split_off(0);
        let ghost taken = 0int;
        while rest.len() > 0
            invariant
                0 <= taken <= ps.len(),
                partials_model(rest@) == ps.subrange(taken, ps.len() as int),
                partials_model(self.partial_segments@) == ahead(
                    ps.subrange(0, taken),
                    self.rcv_nxt,
                    self.rcv_wnd,
                ),
                self@ == (TcbView {
                    partial_segments: partials_model(self.partial_segments@),
                    ..old(self)@
                }),
            decreases rest@.len(),
        {
            let ghost before = self.partial_segments@;
            let ghost rest_before = rest@;
            assert(partials_model(rest_before).len() == rest_before.len());
            assert(taken < ps.len());
            let p = rest.remove(0);
            assert(ps.subrange(0, taken + 1).drop_last() =~= ps.subrange(0, taken));
            assert(partials_model(rest_before)[0] == ps[taken]);
            let d = dist(self.rcv_nxt, p.seq);
            if 0 < d && d < self.rcv_wnd as u32 {
                self.partial_segments.push(p);
                assert(partials_model(self.partial_segments@) =~= partials_model(before).push(
                    ps[taken],
                ));
            }
            proof {
                taken = taken + 1;
            }
            assert(rest@ =~= rest_before.subrange(1, rest_before.len() as int));
            assert(partials_model(rest@) =~= partials_model(rest_before).subrange(
                1,
                rest_before.len() as int,
            ));
            assert(partials_model(rest@) =~= ps.subrange(taken, ps.len() as int));
        }
        assert(ps.subrange(0, taken) =~= ps);
        assert(self@ =~= TcbView {
            partial_segments: ahead(ps, old(self)@.rcv_nxt, old(self)@.rcv_wnd),
            ..old(self)@
        });
    }

    fn reassemble(&mut self)
        ensures
            final(self)@ == reassemble(old(self)@),
    {
        loop
            invariant
                reassemble(self@) == reassemble(old(self)@),
            decreases self@.partial_segments.len(),
        {
            match self.find_partial_at(self.rcv_nxt) {
                None => {
                    return;
                },
                Some(i) => {
                    let ghost m = self@;
                    let ghost before = self.partial_segments@;
                    let mut p = self.partial_segments.remove(i);
                    assert(partials_model(self.partial_segments@) =~= m.partial_segments.remove(
                        i as int,
                    ));
                    let len = p.data.len();
                    self.recv_window.append(&mut p.data);
                    self.rcv_nxt = advance_len(self.rcv_nxt, len);
                    assert(self@ =~= TcbView {
                        recv_window: m.recv_window + m.partial_segments[i as int].1,
                        rcv_nxt: seq_add(m.rcv_nxt, m.partial_segments[i as int].1.len() as int),
                        partial_segments: m.partial_segments.remove(i as int),
                        ..m
                    });
                },
            }
        }
    }

    fn deliver(&mut self, mut data: Vec<u8>)
        requires
            old(self).wf(),
        ensures
            final(self)@ == deliver(old(self)@, data@),
            final(self).wf(),
            final(self)@.local == old(self)@.local,
            final(self)@.remote == old(self)@.remote,
    {
        let ghost d = data@;
        let len = data.len();
        self.recv_window.append(&mut data);
        self.rcv_nxt = advance_len(self.rcv_nxt, len);
        assert(self@ =~= TcbView {
            recv_window: old(self)@.recv_window + d,
            rcv_nxt: seq_add(old(self)@.rcv_nxt, d.len() as int),
            ..old(self)@
        });
        self.reassemble();
        self.keep_ahead();
        proof {
            let m0 = TcbView {
                recv_window: old(self)@.recv_window + d,
                rcv_nxt: seq_add(old(self)@.rcv_nxt, d.len() as int),
                ..old(self)@
            };
            lemma_reassemble_frame(m0);
            lemma_reassemble_distinct(m0);
            let r = reassemble(m0);
            lemma_ahead_distinct(r.partial_segments, r.rcv_nxt, r.rcv_wnd);
        }
    }


    fn on_payload_step(&mut self, seg: &Segment)
        requires
            old(self).wf(),
        ensures
            final(self)@ == on_payload(old(self)@, seg.model()),
            final(self).wf(),
            final(self)@.local == old(self)@.local,
            final(self)@.remote == old(self)@.remote,
    {
        let receives = match self.state {
            TcpState::Established | TcpState::FinWait1 | TcpState::FinWait2 => true,
            _ => false,
        };
        if seg.payload.len() > 0 && receives {
            let seq = seg.header.sequence_number;
            let data = slice_to_vec(seg.payload.as_slice());
            if seq == self.rcv_nxt {
                self.deliver(data);
            } else if dist(self.rcv_nxt, seq) < self.rcv_wnd as u32 {
                let ghost ps = self@.partial_segments;
                proof {
                    lemma_without_key_distinct(ps, seq);
                }
                self.insert_partial(seq, data);
                proof {
                    let w = without_key(ps, seq);
                    let ps2 = self@.partial_segments;
                    assert forall|i: int, j: int|
                        0 <= i < ps2.len() && 0 <= j < ps2.len() && i != j implies (
                        #[trigger] ps2[i]).0 != (#[trigger] ps2[j]).0 by {
                        if i < w.len() {
                            assert(ps2[i] == w[i]);
                        }
                        if j < w.len() {
                            assert(ps2[j] == w[j]);
                        }
                    }
                }
            }
            self.emit_ack();
        }
    }

    fn on_fin_step(&mut self, seg: &Segment, now: u64)
        requires
            old(self).wf(),
        ensures
            final(self)@ == on_fin(old(self)@, seg.model(), now),
            final(self).wf(),
    {
        let h = seg.header;
        if h.flags.fin && advance_len(h.sequence_number, seg.payload.len()) == self.rcv_nxt {
            let ghost m = self@;
            self.rcv_nxt = advance(self.rcv_nxt, 1);
            assert(self@ =~= TcbView { rcv_nxt: seq_add(m.rcv_nxt, 1), ..m });
            self.emit_ack();
            match self.state {
                TcpState::Established => self.set_state(TcpState::CloseWait, now),
                TcpState::FinWait1 => self.set_state(TcpState::Closing, now),
                TcpState::FinWait2 => self.set_state(TcpState::TimeWait, now),
                TcpState::TimeWait => self.set_state(TcpState::TimeWait, now),
                _ => {},
            }
        }
    }

    fn on_fin_acked_step(&mut self, now: u64)
        requires
            old(self).wf(),
        ensures
            final(self)@ == on_fin_acked(old(self)@, now),
            final(self).wf(),
    {
        match self.state {
            TcpState::FinWait1 => self.set_state(TcpState::FinWait2, now),
            TcpState::Closing => self.set_state(TcpState::TimeWait, now),
            TcpState::LastAck => self.set_state(TcpState::Closed, now),
            TcpState::TimeWait => {
                self.set_state(TcpState::TimeWait, now);
                self.emit_ack();
            },
            _ => {},
        }
    }

    fn fin_acked(&self) -> (r: bool)
        ensures
            r == our_fin_acked(self@),
    {
        match self.fin_seq {
            Some(f) => self.snd_una == advance(f, 1),
            None => false,
        }
    }

    fn handle_syn_sent(&mut self, seg: &Segment, now: u64)
        requires
            old(self).wf(),
            old(self)@.state == TcpState::SynSent,
        ensures
            final(self)@ == on_segment_syn_sent(old(self)@, seg.model(), now),
            final(self).wf(),
    {
        let h = seg.header;
        if !h.flags.ack {
            return;
        }
        if h.flags.rst {
            self.set_state(TcpState::Closed, now);
            return;
        }
        if h.acknowledgment_number != self.snd_nxt {
            let rst = self.header(
                h.acknowledgment_number,
                0,
                TcpFlags { fin: false, syn: false, rst: true, psh: false, ack: false },
            );
            self.set_state(TcpState::CloseWait, now);
            let empty: Vec<u8> = Vec::new();
            assert(empty@ =~= seq![]);
            self.emit(rst, empty);
            return;
        }
        if h.flags.syn {
            let ghost m = self@;
            self.rcv_nxt = advance(h.sequence_number, 1);
            self.rcv_wnd = h.window_size;
            self.send_window = vec![0u8; h.window_size as usize];
            let ghost m1 = TcbView {
                rcv_nxt: seq_add(h.sequence_number, 1),
                rcv_wnd: h.window_size,
                send_window: Seq::new(h.window_size as nat, |i: int| 0u8),
                ..m
            };
            assert(self@ =~= m1);
            assert(tcb_wf(m1));
            self.on_ack_advance(h.acknowledgment_number, now);
            self.set_state(TcpState::Established, now);
            self.emit_ack();
        }
    }

    fn handle_closed(&mut self, seg: &Segment)
        requires
            old(self).wf(),
        ensures
            final(self)@ == on_segment_closed(old(self)@, seg.model()),
            final(self).wf(),
    {
        let h = seg.header;
        if h.flags.rst {
            return;
        }
        let rst = if !h.flags.ack {
            self.header(
                0,
                advance_len(h.sequence_number, seg.payload.len()),
                TcpFlags { fin: false, syn: false, rst: true, psh: false, ack: true },
            )
        } else {
            self.header(
                h.acknowledgment_number,
                0,
                TcpFlags { fin: false, syn: false, rst: true, psh: false, ack: false },
            )
        };
        let empty: Vec<u8> = Vec::new();
        assert(empty@ =~= seq![]);
        self.emit(rst, empty);
    }

    fn handle_synchronized(&mut self, seg: &Segment, now: u64) -> (r: Result<(), TcpError>)
        requires
            old(self).wf(),
            old(self)@.state != TcpState::Listen,
            old(self)@.state != TcpState::SynSent,
        ensures
            (final(self)@, r) == on_segment_synchronized(old(self)@, seg.model(), now),
            final(self).wf(),
            final(self)@.local == old(self)@.local,
            final(self)@.remote == old(self)@.remote,
    {
        let h = seg.header;
        if !is_acceptable(self.rcv_nxt, self.rcv_wnd, h.sequence_number, seg.payload.len()) {
            if !h.flags.rst {
                self.emit_ack();
            }
            return Ok(());
        }
        if h.flags.rst {
            if h.sequence_number == self.rcv_nxt {
                self.set_state(TcpState::Closed, now);
            } else {
                self.emit_ack();
            }
            return Ok(());
        }
        if h.flags.syn {
            return Err(TcpError::ProtocolViolation);
        }
        if !h.flags.ack {
            return Ok(());
        }
        let ack = h.acknowledgment_number;
        let d = dist(self.snd_una, ack);
        if 0 < d && d <= dist(self.snd_una, self.snd_nxt) {
            self.on_ack_advance(ack, now);
        }
        let fin_acked = self.fin_acked();
        if fin_acked && self.state == TcpState::LastAck {
            self.on_fin_acked_step(now);
            return Ok(());
        }
        if fin_acked {
            self.on_fin_acked_step(now);
        }
        self.on_payload_step(seg);
        self.on_fin_step(seg, now);
        Ok(())
    }

    /// Handles an inbound segment that the demultiplexer routed to this
    /// connection at time `now` (microseconds).
    pub fn on_packet(&mut self, seg: &Segment, now: u64) -> (r: Result<(), TcpError>)
        requires
            old(self).wf(),
        ensures
            (final(self)@, r) == on_segment(old(self)@, seg.model(), now),
            final(self).wf(),
            forall|i: int|
                0 <= i < final(self)@.timers.len() ==> seq_dist(
                    final(self)@.snd_una,
                    #[trigger] final(self)@.timers[i].seq,
                ) < in_flight(final(self)@),
            final(self)@.local == old(self)@.local,
            final(self)@.remote == old(self)@.remote,
    {
        match self.state {
            TcpState::Listen | TcpState::SynReceived => Err(TcpError::NotImplemented),
            TcpState::SynSent => {
                self.handle_syn_sent(seg, now);
                Ok(())
            },
            TcpState::Closed => {
                self.handle_closed(seg);
                Ok(())
            },
            _ => self.handle_synchronized(seg, now),
        }
    }


    fn earliest(&self) -> (r: Option<usize>)
        ensures
            r matches Some(i) ==> earliest_timer(self@.timers, self@.snd_una) == Some(i as int)
                && i < self@.timers.len(),
            r is None ==> earliest_timer(self@.timers, self@.snd_una) is None,
    {
        let ghost ts = self.timers@;
        let mut best: Option<usize> = None;
        let mut i: usize = 0;
        while i < self.timers.len()
            invariant
                i <= ts.len(),
                ts == self.timers@,
                best matches Some(j) ==> earliest_timer(ts.subrange(0, i as int), self.snd_una)
                    == Some(j as int) && j < i,
                best is None ==> earliest_timer(ts.subrange(0, i as int), self.snd_una) is None,
            decreases ts.len() - i,
        {
            let ghost sub = ts.subrange(0, i + 1);
            assert(sub.drop_last() =~= ts.subrange(0, i as int));
            match best {
                None => {
                    best = Some(i);
                },
                Some(j) => {
                    assert(sub[j as int] == ts[j as int]);
                    if dist(self.snd_una, self.timers[i].seq) < dist(
                        self.snd_una,
                        self.timers[j].seq,
                    ) {
                        best = Some(i);
                    }
                },
            }
            i = i + 1;
        }
        assert(ts.subrange(0, i as int) =~= ts);
        best
    }

    fn retransmission_of(&self, key: u32) -> (r: (TcpHeaderFields, Vec<u8>))
        requires
            self.wf(),
        ensures
            (r.0, r.1@) == retransmission(self@, key),
    {
        if key == self.iss {
            let h = self.header(
                self.iss,
                0,
                TcpFlags { fin: false, syn: true, rst: false, psh: false, ack: false },
            );
            let empty: Vec<u8> = Vec::new();
            assert(empty@ =~= seq![]);
            return (h, empty);
        }
        if self.fin_seq == Some(key) {
            let h = self.header(
                key,
                self.rcv_nxt,
                TcpFlags { fin: true, syn: false, rst: false, psh: false, ack: true },
            );
            let empty: Vec<u8> = Vec::new();
            assert(empty@ =~= seq![]);
            return (h, empty);
        }
        let h = self.header(
            key,
            self.rcv_nxt,
            TcpFlags { fin: false, syn: false, rst: false, psh: true, ack: true },
        );
        let w = self.send_window.len();
        let mut payload: Vec<u8> = Vec::new();
        if w == 0 {
            assert(payload@ =~= seq![]);
            return (h, payload);
        }
        let unacked = dist(key, self.snd_nxt);
        let n = if (unacked as usize) <= MAX_TCP_PAYLOAD {
            unacked
        } else {
            MAX_TCP_PAYLOAD as u32
        };
        assert(n as int == resend_len(self@, key));
        let mut j: u32 = 0;
        while j < n
            invariant
                0 < w == self.send_window@.len(),
                j <= n,
                payload@ == ring_bytes(self.send_window@, key, j as int),
            decreases n - j,
        {
            let idx = (advance(key, j) as usize) % w;
            payload.push(self.send_window[idx]);
            j = j + 1;
            assert(payload@ =~= ring_bytes(self.send_window@, key, j as int));
        }
        (h, payload)
    }

    fn send_fin(&mut self, now: u64)
        requires
            old(self).wf(),
            old(self)@.state == TcpState::FinWait1,
            old(self)@.fin_seq is None,
            old(self)@.timers.len() == 0,
        ensures
            final(self)@ == send_fin(old(self)@, now),
            final(self).wf(),
    {
        let ghost m = self@;
        let f = self.snd_nxt;
        let next = advance(f, 1);
        self.fin_seq = Some(f);
        self.snd_nxt = next;
        self.timers.push(RetransmitTimer { seq: f, end: next, retransmitted: false, sent_at: now });
        let h = self.header(
            f,
            self.rcv_nxt,
            TcpFlags { fin: true, syn: false, rst: false, psh: false, ack: true },
        );
        let empty: Vec<u8> = Vec::new();
        assert(empty@ =~= seq![]);
        self.emit(h, empty);
        proof {
            lemma_dist_add(m.snd_una, m.snd_nxt, 1);
        }
        assert(self@ =~= send_fin(m, now));
    }

    /// The periodic timer: retransmits the earliest expired segment, sends
    /// the FIN once nothing is outstanding in FIN-WAIT-1, and reports
    /// whether a TIME-WAIT connection has lingered long enough to be
    /// removed. Timers of acknowledged segments are purged as the ACKs
    /// arrive, so none is left to purge here.
    pub fn tick(&mut self, now: u64) -> (r: bool)
        requires
            old(self).wf(),
        ensures
            (final(self)@, r) == on_tick(old(self)@, now),
            final(self).wf(),
    {
        let ghost m = self@;
        match self.earliest() {
            Some(i) => {
                let t = self.timers[i];
                let waited = if now >= t.sent_at {
                    now - t.sent_at
                } else {
                    0
                };
                if waited as u128 >= self.rto.rto {
                    self.timers.set(
                        i,
                        RetransmitTimer { retransmitted: true, sent_at: now, ..t },
                    );
                    self.rto.backoff();
                    let (h, payload) = self.retransmission_of(t.seq);
                    self.emit(h, payload);
                }
                false
            },
            None => {
                if self.state == TcpState::FinWait1 && self.fin_seq.is_none() {
                    self.send_fin(now);
                    false
                } else if self.state == TcpState::TimeWait {
                    match self.time_wait_since {
                        Some(since) => {
                            let waited = if now >= since {
                                now - since
                            } else {
                                0
                            };
                            waited > TIME_WAIT_US
                        },
                        None => false,
                    }
                } else {
                    false
                }
            },
        }
    }

    /// The application's close.
    pub fn close(&mut self)
        requires
            old(self).wf(),
        ensures
            final(self)@ == on_close(old(self)@),
            final(self).wf(),
    {
        match self.state {
            TcpState::SynSent => self.state = TcpState::Closed,
            TcpState::Established => self.state = TcpState::FinWait1,
            TcpState::CloseWait => self.state = TcpState::LastAck,
            _ => {},
        }
        assert(self@ =~= on_close(old(self)@));
    }
}

} // verus!
