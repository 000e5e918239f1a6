//! The demultiplexer: the table of connections by four-tuple, ephemeral
//! port allocation, routing of inbound datagrams and the periodic tick.
use crate::segment::{Endpoint, Segment};
use crate::tcb::{after_read, datagrams, random_u32, read_into, TcpSocket};
use crate::transitions::{
    read_count, initial, on_close, on_connect, on_segment, on_tick, on_write, tcb_wf, TcbView, TcpError,
    TcpState,
};
use crate::wire::{
    ipv4_header_of, parse_ipv4_header, parse_tcp_segment, tcp_segment_of, IP_PROTOCOL_TCP,
};
use vstd::prelude::*;
use vstd::set_lib::{lemma_int_range, lemma_len_subset, lemma_map_size_bound, set_int_range};

verus! {

/// The first ephemeral port.
pub const EPHEMERAL_FIRST: u16 = 10000;

/// The number of ephemeral ports, `[10000, 65535]`.
pub const EPHEMERAL_COUNT: u32 = 55536;

/// A connection's key: local endpoint first, then remote.
#[derive(Clone, Copy, Debug, PartialEq, Eq, Structural)]
pub struct Quad {
    pub local: Endpoint,
    pub remote: Endpoint,
}

/// What became of an inbound datagram.
#[derive(Clone, Copy, Debug)]
pub enum Delivery {
    /// Handed to the connection of this four-tuple, with its answer.
    Delivered(Quad, Result<(), TcpError>),
    /// No connection has this four-tuple; the segment was dropped.
    UnknownQuad(Quad),
    /// An IPv4 datagram of another protocol; dropped.
    NotTcp(u8),
    /// Not a well-formed IPv4 datagram or TCP segment; dropped.
    Malformed,
}

/// The connections, by four-tuple, in the order they were opened.
pub ghost struct DemuxView {
    pub local_addr: u32,
    pub entries: Seq<(Quad, TcbView)>,
}

/// The table of connections of one local address.
pub struct Demux {
    local_addr: u32,
    sockets: Vec<(Quad, TcpSocket)>,
}

spec fn entries_model(v: Seq<(Quad, TcpSocket)>) -> Seq<(Quad, TcbView)> {
    v.map_values(|e: (Quad, TcpSocket)| (e.0, e.1@))
}

impl View for Demux {
    type V = DemuxView;

    closed spec fn view(&self) -> DemuxView {
        DemuxView { local_addr: self.local_addr, entries: entries_model(self.sockets@) }
    }
}

/// The port `k` steps after `start` in the ephemeral range, wrapping from
/// 65535 to 10000.
pub open spec fn probe(start: u16, k: int) -> u16 {
    (EPHEMERAL_FIRST as int + (start as int - EPHEMERAL_FIRST as int + k) % (
    EPHEMERAL_COUNT as int)) as u16
}

/// Whether no connection uses local port `p`.
pub open spec fn port_free(entries: Seq<(Quad, TcbView)>, p: u16) -> bool {
    forall|i: int| 0 <= i < entries.len() ==> (#[trigger] entries[i]).0.local.port != p
}

/// The index of the connection keyed `q`.
pub open spec fn lookup(entries: Seq<(Quad, TcbView)>, q: Quad) -> Option<int> {
    if exists|i: int| 0 <= i < entries.len() && (#[trigger] entries[i]).0 == q {
        Some(choose|i: int| 0 <= i < entries.len() && (#[trigger] entries[i]).0 == q)
    } else {
        None
    }
}

/// What holds of the table: each connection keeps its invariant and the
/// endpoints of its key, and no two connections share a local port, so no
/// two share a four-tuple.
pub open spec fn demux_wf(d: DemuxView) -> bool {
    &&& forall|i: int|
        0 <= i < d.entries.len() ==> {
            let (q, m) = #[trigger] d.entries[i];
            tcb_wf(m) && m.local == q.local && m.remote == q.remote
        }
    &&& forall|i: int, j: int|
        0 <= i < d.entries.len() && 0 <= j < d.entries.len() && i != j
            ==> (#[trigger] d.entries[i]).0.local.port != (#[trigger] d.entries[j]).0.local.port
}

/// The key of an inbound segment from `src` to `dst`: local side first.
pub open spec fn quad_of(src: u32, dst: u32, seg: crate::transitions::SegmentModel) -> Quad {
    Quad {
        local: Endpoint { addr: dst, port: seg.0.destination_port },
        remote: Endpoint { addr: src, port: seg.0.source_port },
    }
}

/// The table after a segment from `src` to `dst` arrived at `now`, and what
/// became of it.
pub open spec fn route(d: DemuxView, src: u32, dst: u32, seg: crate::transitions::SegmentModel, now: u64) -> (
    DemuxView,
    Delivery,
) {
    let q = quad_of(src, dst, seg);
    match lookup(d.entries, q) {
        Some(i) => {
            let (m, r) = on_segment(d.entries[i].1, seg, now);
            (DemuxView { entries: d.entries.update(i, (q, m)), ..d }, Delivery::Delivered(q, r))
        },
        None => (d, Delivery::UnknownQuad(q)),
    }
}

/// Whether a connection leaves the table after a tick that returned
/// `cleanup`.
pub open spec fn departs(m: TcbView, cleanup: bool) -> bool {
    cleanup || m.state == TcpState::Closed
}

/// The table after every connection ticked at `now`: those that asked for
/// cleanup, and those that reached CLOSED, are removed.
pub open spec fn ticked(es: Seq<(Quad, TcbView)>, now: u64) -> Seq<(Quad, TcbView)>
    decreases es.len(),
{
    if es.len() == 0 {
        seq![]
    } else {
        let rest = ticked(es.drop_last(), now);
        let (m, cleanup) = on_tick(es.last().1, now);
        if departs(m, cleanup) {
            rest
        } else {
            rest.push((es.last().0, m))
        }
    }
}

/// `probe(start, k)` is the first port from `start` on that no connection
/// uses.
pub open spec fn first_free_at(es: Seq<(Quad, TcbView)>, start: u16, k: int) -> bool {
    &&& 0 <= k < EPHEMERAL_COUNT
    &&& port_free(es, probe(start, k))
    &&& forall|j: int| 0 <= j < k ==> !port_free(es, #[trigger] probe(start, j))
}

/// The next port in the ephemeral range, wrapping from 65535 to 10000.
proof fn lemma_probe_step(start: u16, k: int)
    requires
        start >= EPHEMERAL_FIRST,
        0 <= k,
    ensures
        probe(start, k + 1) == if probe(start, k) == 65535 {
            EPHEMERAL_FIRST
        } else {
            (probe(start, k) + 1) as u16
        },
{
    let a = start as int - EPHEMERAL_FIRST as int + k;
    let m = EPHEMERAL_COUNT as int;
    vstd::arithmetic::div_mod::lemma_fundamental_div_mod(a, m);
    vstd::arithmetic::div_mod::lemma_fundamental_div_mod(a + 1, m);
    vstd::arithmetic::div_mod::lemma_mod_bound(a, m);
    vstd::arithmetic::div_mod::lemma_mod_bound(a + 1, m);
    if a % m == m - 1 {
        vstd::arithmetic::div_mod::lemma_mod_add_multiples_vanish(a + 1 - m, m);
        assert((a + 1) % m == 0) by {
            vstd::arithmetic::div_mod::lemma_add_mod_noop(a, 1, m);
        }
    } else {
        assert((a + 1) % m == a % m + 1) by {
            vstd::arithmetic::div_mod::lemma_add_mod_noop(a, 1, m);
            vstd::arithmetic::div_mod::lemma_small_mod((a % m + 1) as nat, m as nat);
        }
    }
}

/// The table with the connection at `i` replaced by `m`, key kept.
pub open spec fn replace_at(d: DemuxView, i: int, m: TcbView) -> DemuxView {
    DemuxView { entries: d.entries.update(i, (d.entries[i].0, m)), ..d }
}

/// What the demultiplexer makes of the datagram `bytes` at `now`: the IPv4
/// header read, a TCP segment read from what follows it, and the segment
/// routed by its four-tuple.
pub open spec fn on_datagram_spec(d: DemuxView, bytes: Seq<u8>, now: u64) -> (DemuxView, Delivery) {
    match ipv4_header_of(bytes) {
        None => (d, Delivery::Malformed),
        Some(ip) => if ip.protocol != IP_PROTOCOL_TCP {
            (d, Delivery::NotTcp(ip.protocol))
        } else {
            match tcp_segment_of(bytes.subrange(ip.header_len as int, bytes.len() as int)) {
                None => (d, Delivery::Malformed),
                Some(seg) => route(d, ip.source, ip.destination, seg, now),
            }
        },
    }
}

/// The quads of the connections that a tick at `now` removes.
pub open spec fn departed(es: Seq<(Quad, TcbView)>, now: u64) -> Seq<Quad>
    decreases es.len(),
{
    if es.len() == 0 {
        seq![]
    } else {
        let rest = departed(es.drop_last(), now);
        let (m, cleanup) = on_tick(es.last().1, now);
        if departs(m, cleanup) {
            rest.push(es.last().0)
        } else {
            rest
        }
    }
}

/// The datagrams of every connection's transmit queue, connection by
/// connection.
pub open spec fn all_datagrams(es: Seq<(Quad, TcbView)>) -> Seq<Seq<u8>>
    decreases es.len(),
{
    if es.len() == 0 {
        seq![]
    } else {
        let m = es.last().1;
        all_datagrams(es.drop_last()) + datagrams(m.local.addr, m.remote.addr, m.outbox)
    }
}

/// The table with every transmit queue emptied.
pub open spec fn flushed(es: Seq<(Quad, TcbView)>) -> Seq<(Quad, TcbView)> {
    es.map_values(|e: (Quad, TcbView)| (e.0, TcbView { outbox: seq![], ..e.1 }))
}

/// When every ephemeral port is taken, the table holds at least as many
/// connections as there are ephemeral ports.
proof fn lemma_full_table(es: Seq<(Quad, TcbView)>)
    requires
        forall|p: u16| EPHEMERAL_FIRST <= p ==> !port_free(es, p),
    ensures
        es.len() >= EPHEMERAL_COUNT,
{
    let idx = set_int_range(0, es.len() as int);
    lemma_int_range(0, es.len() as int);
    let f = |i: int| es[i].0.local.port as int;
    let ports = idx.map(f);
    lemma_map_size_bound(idx, ports, f);
    let range = set_int_range(EPHEMERAL_FIRST as int, 65536);
    lemma_int_range(EPHEMERAL_FIRST as int, 65536);
    assert forall|p: int| range.contains(p) implies ports.contains(p) by {
        let q = p as u16;
        assert(!port_free(es, q));
        let i = choose|i: int| 0 <= i < es.len() && (#[trigger] es[i]).0.local.port == q;
        assert(idx.contains(i));
        assert(f(i) == p);
    }
    lemma_len_subset(range, ports);
}

/// Relies on `rand::random_range`: a value drawn from the inclusive range
/// it is given.
#[verifier::external_body]
fn random_ephemeral_port() -> (r: u16)
    ensures
        EPHEMERAL_FIRST <= r,
{
    rand::random_range(10000..=65535u16)
}

impl Demux {
    /// The invariant of the table.
    pub open spec fn wf(&self) -> bool {
        demux_wf(self@)
    }

    /// An empty table for the local address `local_addr`.
    pub fn new(local_addr: u32) -> (r: Self)
        ensures
            r@ == (DemuxView { local_addr, entries: seq![] }),
            r.wf(),
    {
        let r = Demux { local_addr, sockets: Vec::new() };
        assert(r@.entries =~= seq![]);
        r
    }

    /// The local address.
    pub fn local_addr(&self) -> (r: u32)
        ensures
            r == self@.local_addr,
    {
        self.local_addr
    }

    /// How many connections the table holds.
    pub fn len(&self) -> (r: usize)
        ensures
            r == self@.entries.len(),
    {
        self.sockets.len()
    }

    fn is_port_free(&self, p: u16) -> (r: bool)
        ensures
            r == port_free(self@.entries, p),
    {
        let ghost es = self@.entries;
        let mut i: usize = 0;
        while i < self.sockets.len()
            invariant
                i <= self.sockets@.len(),
                es == entries_model(self.sockets@),
                forall|j: int| 0 <= j < i ==> (#[trigger] es[j]).0.local.port != p,
            decreases self.sockets@.len() - i,
        {
            if self.sockets[i].0.local.port == p {
                assert(es[i as int].0.local.port == p);
                return false;
            }
            i = i + 1;
        }
        true
    }

    /// Opens a connection to `remote` from the first free local port at or
    /// after `candidate` in the ephemeral range (wrapping from 65535 to
    /// 10000), with initial send sequence number `iss`: the connection sends
    /// its SYN at `now` and joins the table. `None` when every ephemeral
    /// port is in use.
    pub fn connect_with(&mut self, remote: Endpoint, candidate: u16, iss: u32, now: u64) -> (r:
        Option<Quad>)
        requires
            old(self).wf(),
            candidate >= EPHEMERAL_FIRST,
        ensures
            final(self).wf(),
            final(self)@.local_addr == old(self)@.local_addr,
            match r {
                Some(q) => {
                    &&& exists|k: int|
                        #[trigger] first_free_at(old(self)@.entries, candidate, k)
                            && q.local.port == probe(candidate, k)
                    &&& q.local.addr == old(self)@.local_addr
                    &&& q.remote == remote
                    &&& final(self)@.entries == old(self)@.entries.push(
                        (q, on_connect(initial(q.local, remote, iss), now)),
                    )
                },
                None => {
                    &&& forall|k: int|
                        0 <= k < EPHEMERAL_COUNT ==> !port_free(
                            old(self)@.entries,
                            #[trigger] probe(candidate, k),
                        )
                    &&& final(self)@ == old(self)@
                },
            },
    {
        let ghost es = self@.entries;
        let mut port = candidate;
        let mut k: u32 = 0;
        proof {
            vstd::arithmetic::div_mod::lemma_small_mod(
                (candidate - EPHEMERAL_FIRST) as nat,
                EPHEMERAL_COUNT as nat,
            );
        }
        while k < EPHEMERAL_COUNT
            invariant
                k <= EPHEMERAL_COUNT,
                port == probe(candidate, k as int),
                candidate >= EPHEMERAL_FIRST,
                self@ == old(self)@,
                es == self@.entries,
                demux_wf(self@),
                forall|j: int| 0 <= j < k ==> !port_free(es, #[trigger] probe(candidate, j)),
            decreases EPHEMERAL_COUNT - k,
        {
            if self.is_port_free(port) {
                let q = Quad {
                    local: Endpoint { addr: self.local_addr, port },
                    remote,
                };
                assert(first_free_at(es, candidate, k as int));
                let mut sock = TcpSocket::with_iss(q.local, remote, iss);
                sock.connect(now);
                let ghost before = self.sockets@;
                self.sockets.push((q, sock));
                assert(entries_model(self.sockets@) =~= es.push(
                    (q, on_connect(initial(q.local, remote, iss), now)),
                ));
                proof {
                    let es2 = self@.entries;
                    assert(port_free(es, port));
                    assert(es2.len() == es.len() + 1);
                    assert(es2[es.len() as int].0.local.port == port);
                    assert(forall|i: int| 0 <= i < es.len() ==> es2[i] == es[i]);
                    assert forall|i: int, j: int|
                        0 <= i < es2.len() && 0 <= j < es2.len() && i != j implies (
                        #[trigger] es2[i]).0.local.port != (#[trigger] es2[j]).0.local.port by {
                        if i == es.len() {
                            assert(es[j] == es2[j]);
                            assert(es[j].0.local.port != port);
                        } else if j == es.len() {
                            assert(es[i] == es2[i]);
                            assert(es[i].0.local.port != port);
                        } else {
                            assert(es[i] == es2[i]);
                            assert(es[j] == es2[j]);
                        }
                    }
                }
                return Some(q);
            }
            proof {
                lemma_probe_step(candidate, k as int);
            }
            port = if port == 65535 {
                EPHEMERAL_FIRST
            } else {
                port + 1
            };
            k = k + 1;
        }
        None
    }

    /// Opens a connection to `remote` from a random ephemeral port (the
    /// first free one from a random start) with a random initial send
    /// sequence number.
    pub fn connect(&mut self, remote: Endpoint, now: u64) -> (r: Option<Quad>)
        requires
            old(self).wf(),
        ensures
            final(self).wf(),
            final(self)@.local_addr == old(self)@.local_addr,
            match r {
                Some(q) => {
                    &&& port_free(old(self)@.entries, q.local.port)
                    &&& EPHEMERAL_FIRST <= q.local.port
                    &&& q.local.addr == old(self)@.local_addr
                    &&& q.remote == remote
                    &&& exists|iss: u32|
                        final(self)@.entries == old(self)@.entries.push(
                            (q, on_connect(#[trigger] initial(q.local, remote, iss), now)),
                        )
                },
                None => {
                    &&& forall|p: u16| EPHEMERAL_FIRST <= p ==> !port_free(old(self)@.entries, p)
                    &&& old(self)@.entries.len() >= EPHEMERAL_COUNT
                    &&& final(self)@ == old(self)@
                },
            },
    {
        let candidate = random_ephemeral_port();
        let iss = random_u32();
        let r = self.connect_with(remote, candidate, iss, now);
        proof {
            if let Some(q) = r {
                let k = choose|k: int|
                    #[trigger] first_free_at(old(self)@.entries, candidate, k) && q.local.port
                        == probe(candidate, k);
                vstd::arithmetic::div_mod::lemma_mod_bound(
                    candidate as int - EPHEMERAL_FIRST as int + k,
                    EPHEMERAL_COUNT as int,
                );
            }
            if r is None {
                assert forall|p: u16| EPHEMERAL_FIRST <= p implies !port_free(old(self)@.entries, p) by {
                    let k = if p >= candidate {
                        p - candidate
                    } else {
                        p - candidate + EPHEMERAL_COUNT
                    };
                    assert(probe(candidate, k) == p) by {
                        vstd::arithmetic::div_mod::lemma_small_mod(
                            (p - EPHEMERAL_FIRST) as nat,
                            EPHEMERAL_COUNT as nat,
                        );
                        if p < candidate {
                            vstd::arithmetic::div_mod::lemma_mod_add_multiples_vanish(
                                p - EPHEMERAL_FIRST,
                                EPHEMERAL_COUNT as int,
                            );
                        }
                    }
                }
                lemma_full_table(old(self)@.entries);
            }
        }
        r
    }

    /// Routes a segment that arrived from `src` to `dst` at `now` to the
    /// connection of its four-tuple.
    pub fn deliver_segment(&mut self, src: u32, dst: u32, seg: &Segment, now: u64) -> (r: Delivery)
        requires
            old(self).wf(),
        ensures
            (final(self)@, r) == route(old(self)@, src, dst, seg.model(), now),
            final(self).wf(),
    {
        let q = Quad {
            local: Endpoint { addr: dst, port: seg.header.destination_port },
            remote: Endpoint { addr: src, port: seg.header.source_port },
        };
        match self.find(q) {
            None => Delivery::UnknownQuad(q),
            Some(i) => {
                let ghost es = self@.entries;
                let (k, mut sock) = self.sockets.remove(i);
                assert(es[i as int] == (k, sock@));
                let res = sock.on_packet(seg, now);
                self.sockets.insert(i, (k, sock));
                proof {
                    assert(entries_model(self.sockets@) =~= es.update(i as int, (q, sock@)));
                    self.lemma_replace_wf(es, i as int, sock@);
                }
                Delivery::Delivered(q, res)
            },
        }
    }

    proof fn lemma_replace_wf(&self, es: Seq<(Quad, TcbView)>, i: int, m: TcbView)
        requires
            demux_wf(DemuxView { local_addr: self@.local_addr, entries: es }),
            0 <= i < es.len(),
            tcb_wf(m),
            m.local == es[i].0.local,
            m.remote == es[i].0.remote,
            self@.entries == es.update(i, (es[i].0, m)),
        ensures
            self.wf(),
    {
        let es2 = self@.entries;
        assert forall|a: int| 0 <= a < es2.len() implies {
            let (q, m2) = #[trigger] es2[a];
            tcb_wf(m2) && m2.local == q.local && m2.remote == q.remote
        } by {
            if a != i {
                assert(es2[a] == es[a]);
            }
        }
        assert forall|a: int, b: int|
            0 <= a < es2.len() && 0 <= b < es2.len() && a != b implies (#[trigger] es2[a]).0.local.port
            != (#[trigger] es2[b]).0.local.port by {
            assert(es2[a].0 == es[a].0);
            assert(es2[b].0 == es[b].0);
        }
    }

    /// Reads one inbound IPv4 datagram and routes its TCP segment.
    pub fn on_datagram(&mut self, bytes: &[u8], now: u64) -> (r: Delivery)
        requires
            old(self).wf(),
        ensures
            (final(self)@, r) == on_datagram_spec(old(self)@, bytes@, now),
            final(self).wf(),
    {
        match parse_ipv4_header(bytes) {
            None => Delivery::Malformed,
            Some(ip) => {
                if ip.protocol != IP_PROTOCOL_TCP {
                    return Delivery::NotTcp(ip.protocol);
                }
                let rest = &bytes[ip.header_len..bytes.len()];
                match parse_tcp_segment(rest) {
                    None => Delivery::Malformed,
                    Some(seg) => self.deliver_segment(ip.source, ip.destination, &seg, now),
                }
            },
        }
    }

    /// Ticks every connection at `now` and removes those that asked for
    /// cleanup or reached CLOSED; returns their quads.
    pub fn tick_all(&mut self, now: u64) -> (r: Vec<Quad>)
        requires
            old(self).wf(),
        ensures
            final(self)@ == (DemuxView { entries: ticked(old(self)@.entries, now), ..old(self)@ }),
            r@ == departed(old(self)@.entries, now),
            final(self).wf(),
    {
        let ghost es = self@.entries;
        let mut rest = self.sockets.split_off(0);
        let mut gone: Vec<Quad> = Vec::new();
        let ghost taken = 0int;
        while rest.len() > 0
            invariant
                0 <= taken <= es.len(),
                demux_wf(DemuxView { local_addr: self.local_addr, entries: es }),
                entries_model(rest@) == es.subrange(taken, es.len() as int),
                entries_model(self.sockets@) == ticked(es.subrange(0, taken), now),
                gone@ == departed(es.subrange(0, taken), now),
                self.local_addr == old(self)@.local_addr,
                forall|a: int|
                    0 <= a < self.sockets@.len() ==> {
                        let (q, s) = #[trigger] self.sockets@[a];
                        tcb_wf(s@) && s@.local == q.local && s@.remote == q.remote && exists|
                            b: int,
                        | 0 <= b < taken && es[b].0 == q
                    },
                forall|a: int, b: int|
                    0 <= a < self.sockets@.len() && 0 <= b < self.sockets@.len() && a != b
                        ==> (#[trigger] self.sockets@[a]).0.local.port
                        != (#[trigger] self.sockets@[b]).0.local.port,
            decreases rest@.len(),
        {
            let ghost rest_before = rest@;
            assert(entries_model(rest_before).len() == rest_before.len());
            assert(taken < es.len());
            let (q, mut sock) = rest.remove(0);
            assert(entries_model(rest_before)[0] == es[taken]);
            assert(es.subrange(0, taken + 1).drop_last() =~= es.subrange(0, taken));
            let cleanup = sock.tick(now);
            if cleanup || sock.state() == TcpState::Closed {
                gone.push(q);
            } else {
                let ghost before = self.sockets@;
                self.sockets.push((q, sock));
                assert(entries_model(self.sockets@) =~= entries_model(before).push((q, sock@)));
                proof {
                    let now_s = self.sockets@;
                    assert(es[taken].0 == q);
                    assert forall|a: int| 0 <= a < before.len() implies (#[trigger] now_s[a]).0.local.port
                        != q.local.port by {
                        assert(now_s[a] == before[a]);
                        let b = choose|b: int| 0 <= b < taken && es[b].0 == before[a].0;
                        assert(es[b].0.local.port != es[taken].0.local.port);
                    }
                    assert forall|a: int, b: int|
                        0 <= a < now_s.len() && 0 <= b < now_s.len() && a != b implies (
                        #[trigger] now_s[a]).0.local.port != (#[trigger] now_s[b]).0.local.port by {
                        if a < before.len() && b < before.len() {
                            assert(now_s[a] == before[a]);
                            assert(now_s[b] == before[b]);
                        }
                    }
                    assert forall|a: int| 0 <= a < now_s.len() implies {
                        let (q2, s2) = #[trigger] now_s[a];
                        tcb_wf(s2@) && s2@.local == q2.local && s2@.remote == q2.remote && exists|
                            b: int,
                        | 0 <= b < taken + 1 && es[b].0 == q2
                    } by {
                        if a < before.len() {
                            assert(now_s[a] == before[a]);
                        } else {
                            assert(es[taken].0 == now_s[a].0);
                        }
                    }
                }
            }
            proof {
                taken = taken + 1;
            }
            assert(rest@ =~= rest_before.subrange(1, rest_before.len() as int));
            assert(entries_model(rest@) =~= entries_model(rest_before).subrange(
                1,
                rest_before.len() as int,
            ));
            assert(entries_model(rest@) =~= es.subrange(taken, es.len() as int));
        }
        assert(es.subrange(0, taken) =~= es);
        proof {
            let es2 = self@.entries;
            assert forall|a: int, b: int|
                0 <= a < es2.len() && 0 <= b < es2.len() && a != b implies (
                #[trigger] es2[a]).0.local.port != (#[trigger] es2[b]).0.local.port by {
                assert(es2[a].0 == self.sockets@[a].0);
                assert(es2[b].0 == self.sockets@[b].0);
            }
            assert forall|a: int| 0 <= a < es2.len() implies {
                let (q, m) = #[trigger] es2[a];
                tcb_wf(m) && m.local == q.local && m.remote == q.remote
            } by {
                assert(es2[a] == (self.sockets@[a].0, self.sockets@[a].1@));
            }
        }
        gone
    }

    /// The state of the connection keyed `q`.
    pub fn state(&self, q: Quad) -> (r: Option<TcpState>)
        requires
            self.wf(),
        ensures
            match lookup(self@.entries, q) {
                Some(i) => r == Some(self@.entries[i].1.state),
                None => r is None,
            },
    {
        match self.find(q) {
            Some(i) => Some(self.sockets[i].1.state()),
            None => None,
        }
    }

    /// The application's read on the connection keyed `q`.
    pub fn read(&mut self, q: Quad, buf: &mut [u8]) -> (r: Option<Result<usize, TcpError>>)
        requires
            old(self).wf(),
        ensures
            final(self).wf(),
            match lookup(old(self)@.entries, q) {
                Some(i) => {
                    let m = old(self)@.entries[i].1;
                    let res = read_count(m, old(buf)@.len() as int);
                    &&& r == Some(res)
                    &&& final(self)@ == replace_at(old(self)@, i, after_read(m, res))
                    &&& final(buf)@ == read_into(m, old(buf)@, res)
                },
                None => r is None && final(self)@ == old(self)@ && final(buf)@ == old(buf)@,
            },
    {
        match self.find(q) {
            None => None,
            Some(i) => {
                let ghost es = self@.entries;
                let (k, mut sock) = self.sockets.remove(i);
                assert(es[i as int] == (k, sock@));
                let res = sock.read(buf);
                self.sockets.insert(i, (k, sock));
                proof {
                    assert(entries_model(self.sockets@) =~= es.update(i as int, (q, sock@)));
                    self.lemma_replace_wf(es, i as int, sock@);
                }
                Some(res)
            },
        }
    }

    /// The application's write on the connection keyed `q` at `now`.
    pub fn write(&mut self, q: Quad, payload: &[u8], now: u64) -> (r: Option<Result<usize, TcpError>>)
        requires
            old(self).wf(),
        ensures
            final(self).wf(),
            match lookup(old(self)@.entries, q) {
                Some(i) => {
                    let (m2, res) = on_write(old(self)@.entries[i].1, payload@, now);
                    r == Some(res) && final(self)@ == replace_at(old(self)@, i, m2)
                },
                None => r is None && final(self)@ == old(self)@,
            },
    {
        match self.find(q) {
            None => None,
            Some(i) => {
                let ghost es = self@.entries;
                let (k, mut sock) = self.sockets.remove(i);
                assert(es[i as int] == (k, sock@));
                let res = sock.write(payload, now);
                self.sockets.insert(i, (k, sock));
                proof {
                    assert(entries_model(self.sockets@) =~= es.update(i as int, (q, sock@)));
                    self.lemma_replace_wf(es, i as int, sock@);
                }
                Some(res)
            },
        }
    }

    /// The application's close on the connection keyed `q`; false if there
    /// is none.
    pub fn close(&mut self, q: Quad) -> (r: bool)
        requires
            old(self).wf(),
        ensures
            final(self).wf(),
            match lookup(old(self)@.entries, q) {
                Some(i) => r && final(self)@ == replace_at(
                    old(self)@,
                    i,
                    on_close(old(self)@.entries[i].1),
                ),
                None => !r && final(self)@ == old(self)@,
            },
    {
        match self.find(q) {
            None => false,
            Some(i) => {
                let ghost es = self@.entries;
                let (k, mut sock) = self.sockets.remove(i);
                assert(es[i as int] == (k, sock@));
                sock.close();
                self.sockets.insert(i, (k, sock));
                proof {
                    assert(entries_model(self.sockets@) =~= es.update(i as int, (q, sock@)));
                    self.lemma_replace_wf(es, i as int, sock@);
                }
                true
            },
        }
    }

    /// Takes every connection's queued segments as datagrams, connection
    /// by connection.
    pub fn take_datagrams(&mut self) -> (r: Vec<Vec<u8>>)
        requires
            old(self).wf(),
        ensures
            r@.map_values(|d: Vec<u8>| d@) == all_datagrams(old(self)@.entries),
            final(self)@ == (DemuxView { entries: flushed(old(self)@.entries), ..old(self)@ }),
            final(self).wf(),
    {
        let ghost es = self@.entries;
        let mut out: Vec<Vec<u8>> = Vec::new();
        let mut i: usize = 0;
        while i < self.sockets.len()
            invariant
                i <= self.sockets@.len() == es.len(),
                demux_wf(DemuxView { local_addr: self.local_addr, entries: es }),
                self.local_addr == old(self)@.local_addr,
                forall|a: int|
                    0 <= a < i ==> #[trigger] entries_model(self.sockets@)[a] == flushed(es)[a],
                forall|a: int|
                    i <= a < es.len() ==> #[trigger] entries_model(self.sockets@)[a] == es[a],
                out@.map_values(|d: Vec<u8>| d@) == all_datagrams(es.subrange(0, i as int)),
            decreases es.len() - i,
        {
            let ghost before = self.sockets@;
            let ghost out_before = out@;
            let (k, mut sock) = self.sockets.remove(i);
            assert(entries_model(before)[i as int] == es[i as int]);
            let mut ds = sock.take_datagrams();
            self.sockets.insert(i, (k, sock));
            out.append(&mut ds);
            proof {
                assert(es.subrange(0, i + 1).drop_last() =~= es.subrange(0, i as int));
                assert(out@.map_values(|d: Vec<u8>| d@) =~= out_before.map_values(|d: Vec<u8>| d@)
                    + all_datagrams(es.subrange(0, i + 1)).subrange(
                    out_before.len() as int,
                    all_datagrams(es.subrange(0, i + 1)).len() as int,
                ));
                assert forall|a: int| 0 <= a < i + 1 implies #[trigger] entries_model(self.sockets@)[a]
                    == flushed(es)[a] by {
                    if a < i {
                        assert(entries_model(self.sockets@)[a] == entries_model(before)[a]);
                    }
                }
                assert forall|a: int| i + 1 <= a < es.len() implies #[trigger] entries_model(
                    self.sockets@,
                )[a] == es[a] by {
                    assert(entries_model(self.sockets@)[a] == entries_model(before)[a]);
                }
            }
            i = i + 1;
        }
        assert(es.subrange(0, i as int) =~= es);
        assert(entries_model(self.sockets@) =~= flushed(es));
        proof {
            let es2 = self@.entries;
            assert forall|a: int| 0 <= a < es2.len() implies {
                let (q, m) = #[trigger] es2[a];
                tcb_wf(m) && m.local == q.local && m.remote == q.remote
            } by {
                assert(es2[a] == flushed(es)[a]);
            }
            assert forall|a: int, b: int|
                0 <= a < es2.len() && 0 <= b < es2.len() && a != b implies (
                #[trigger] es2[a]).0.local.port != (#[trigger] es2[b]).0.local.port by {
                assert(es2[a] == flushed(es)[a]);
                assert(es2[b] == flushed(es)[b]);
            }
        }
        out
    }

    fn find(&self, q: Quad) -> (r: Option<usize>)
        requires
            self.wf(),
        ensures
            r matches Some(i) ==> lookup(self@.entries, q) == Some(i as int) && i < self@.entries.len(),
            r is None ==> lookup(self@.entries, q) is None,
    {
        let ghost es = self@.entries;
        let mut i: usize = 0;
        while i < self.sockets.len()
            invariant
                i <= self.sockets@.len(),
                es == entries_model(self.sockets@),
                demux_wf(self@),
                es == self@.entries,
                forall|j: int| 0 <= j < i ==> (#[trigger] es[j]).0 != q,
            decreases self.sockets@.len() - i,
        {
            if self.sockets[i].0 == q {
                assert(es[i as int].0 == q);
                let ghost j = choose|j: int| 0 <= j < es.len() && (#[trigger] es[j]).0 == q;
                assert(j == i as int);
                return Some(i);
            }
            i = i + 1;
        }
        assert(!exists|j: int| 0 <= j < es.len() && (#[trigger] es[j]).0 == q);
        None
    }
}

} // verus!
