use tapstack::demux::{Delivery, Demux, Quad};
use tapstack::segment::{Endpoint, Segment, TcpFlags, TcpHeaderFields};
use tapstack::transitions::TcpState;

const LOCAL_ADDR: u32 = 0x0A00_0002;
const REMOTE: Endpoint = Endpoint { addr: 0x0A00_0001, port: 4242 };
const SECOND: u64 = 1_000_000;

fn flags(fin: bool, syn: bool, rst: bool, psh: bool, ack: bool) -> TcpFlags {
    TcpFlags { fin, syn, rst, psh, ack }
}

fn to_local(q: Quad, seq: u32, ack: u32, f: TcpFlags, payload: &[u8]) -> Segment {
    Segment {
        header: TcpHeaderFields {
            source_port: q.remote.port,
            destination_port: q.local.port,
            sequence_number: seq,
            acknowledgment_number: ack,
            flags: f,
            window_size: 8192,
        },
        payload: payload.to_vec(),
    }
}

#[test]
fn ephemeral_ports_are_unique() {
    let mut d = Demux::new(LOCAL_ADDR);
    let a = d.connect_with(REMOTE, 20000, 1, 0).unwrap();
    let b = d.connect_with(REMOTE, 20000, 2, 0).unwrap();
    let c = d.connect_with(Endpoint { addr: 0x0A00_0003, port: 80 }, 20000, 3, 0).unwrap();
    assert_eq!(a.local.port, 20000);
    assert_eq!(b.local.port, 20001);
    assert_eq!(c.local.port, 20002);
    assert_eq!(a.local.addr, LOCAL_ADDR);
    assert_eq!(d.len(), 3);
    assert_ne!(a, b);
}

#[test]
fn ephemeral_ports_wrap_to_the_start_of_the_range() {
    let mut d = Demux::new(LOCAL_ADDR);
    let a = d.connect_with(REMOTE, 65535, 1, 0).unwrap();
    let b = d.connect_with(REMOTE, 65535, 1, 0).unwrap();
    assert_eq!(a.local.port, 65535);
    assert_eq!(b.local.port, 10000);
}

#[test]
fn random_connect_picks_an_ephemeral_port() {
    let mut d = Demux::new(LOCAL_ADDR);
    let q = d.connect(REMOTE, 0).unwrap();
    assert!(q.local.port >= 10000);
    assert_eq!(q.remote, REMOTE);
    assert_eq!(d.state(q), Some(TcpState::SynSent));
}

#[test]
fn segments_route_by_four_tuple() {
    let mut d = Demux::new(LOCAL_ADDR);
    let q = d.connect_with(REMOTE, 30000, 77, 0).unwrap();
    let synack = to_local(q, 1000, 78, flags(false, true, false, false, true), &[]);
    match d.deliver_segment(REMOTE.addr, LOCAL_ADDR, &synack, 5) {
        Delivery::Delivered(k, r) => {
            assert_eq!(k, q);
            assert_eq!(r, Ok(()));
        },
        other => panic!("unexpected {:?}", other),
    }
    assert_eq!(d.state(q), Some(TcpState::Established));

    let stranger = Quad { local: q.local, remote: Endpoint { addr: REMOTE.addr, port: 1 } };
    let seg = to_local(stranger, 1, 1, flags(false, false, false, false, true), &[]);
    assert!(matches!(
        d.deliver_segment(REMOTE.addr, LOCAL_ADDR, &seg, 6),
        Delivery::UnknownQuad(k) if k == stranger
    ));
}

#[test]
fn application_calls_reach_the_connection() {
    let mut d = Demux::new(LOCAL_ADDR);
    let q = d.connect_with(REMOTE, 30000, 77, 0).unwrap();
    d.deliver_segment(REMOTE.addr, LOCAL_ADDR, &to_local(q, 1000, 78, flags(false, true, false, false, true), &[]), 5);
    d.deliver_segment(REMOTE.addr, LOCAL_ADDR, &to_local(q, 1001, 78, flags(false, false, false, true, true), b"hi"), 6);
    let mut buf = [0u8; 8];
    assert_eq!(d.read(q, &mut buf), Some(Ok(2)));
    assert_eq!(&buf[..2], b"hi");
    assert_eq!(d.write(q, b"abc", 7), Some(Ok(3)));
    let other = Quad { local: q.local, remote: Endpoint { addr: 9, port: 9 } };
    assert_eq!(d.write(other, b"abc", 7), None);
    assert!(d.close(q));
    assert_eq!(d.state(q), Some(TcpState::FinWait1));
    let datagrams = d.take_datagrams();
    assert_eq!(datagrams.len(), 4);
    assert!(d.take_datagrams().is_empty());
}

#[test]
fn orderly_close_removes_the_connection() {
    let mut d = Demux::new(LOCAL_ADDR);
    let q = d.connect_with(REMOTE, 30000, 77, 0).unwrap();
    d.deliver_segment(REMOTE.addr, LOCAL_ADDR, &to_local(q, 1000, 78, flags(false, true, false, false, true), &[]), 5);
    assert!(d.close(q));
    assert!(d.tick_all(10).is_empty());
    assert_eq!(d.state(q), Some(TcpState::FinWait1));
    d.deliver_segment(REMOTE.addr, LOCAL_ADDR, &to_local(q, 1001, 79, flags(false, false, false, false, true), &[]), 20);
    assert_eq!(d.state(q), Some(TcpState::FinWait2));
    d.deliver_segment(REMOTE.addr, LOCAL_ADDR, &to_local(q, 1001, 79, flags(true, false, false, false, true), &[]), 30);
    assert_eq!(d.state(q), Some(TcpState::TimeWait));
    assert!(d.tick_all(30 + 60 * SECOND).is_empty());
    assert_eq!(d.tick_all(30 + 60 * SECOND + 1), vec![q]);
    assert_eq!(d.state(q), None);
    assert_eq!(d.len(), 0);
}

#[test]
fn closed_connections_leave_on_the_next_tick() {
    let mut d = Demux::new(LOCAL_ADDR);
    let q = d.connect_with(REMOTE, 30000, 77, 0).unwrap();
    let keep = d.connect_with(REMOTE, 30000, 500, 0).unwrap();
    d.deliver_segment(REMOTE.addr, LOCAL_ADDR, &to_local(q, 0, 78, flags(false, false, true, false, true), &[]), 5);
    assert_eq!(d.state(q), Some(TcpState::Closed));
    assert_eq!(d.tick_all(6), vec![q]);
    assert_eq!(d.state(keep), Some(TcpState::SynSent));
    assert_eq!(d.len(), 1);
}

#[test]
fn datagrams_are_parsed_and_routed() {
    let mut d = Demux::new(LOCAL_ADDR);
    let q = d.connect_with(REMOTE, 30000, 77, 0).unwrap();
    let mut header = etherparse::TcpHeader::new(REMOTE.port, q.local.port, 1000, 4096);
    header.syn = true;
    header.ack = true;
    header.acknowledgment_number = 78;
    let builder = etherparse::PacketBuilder::ipv4(REMOTE.addr.to_be_bytes(), LOCAL_ADDR.to_be_bytes(), 64)
        .tcp_header(header);
    let mut bytes = Vec::new();
    builder.write(&mut bytes, &[]).unwrap();
    assert!(matches!(d.on_datagram(&bytes, 5), Delivery::Delivered(k, Ok(())) if k == q));
    assert_eq!(d.state(q), Some(TcpState::Established));

    let icmp = etherparse::PacketBuilder::ipv4(REMOTE.addr.to_be_bytes(), LOCAL_ADDR.to_be_bytes(), 64)
        .icmpv4_echo_request(1, 1);
    let mut bytes = Vec::new();
    icmp.write(&mut bytes, &[]).unwrap();
    assert!(matches!(d.on_datagram(&bytes, 6), Delivery::NotTcp(1)));
    assert!(matches!(d.on_datagram(&[1, 2, 3], 7), Delivery::Malformed));
}
