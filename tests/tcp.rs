use tapstack::segment::{Endpoint, Segment, TcpFlags, TcpHeaderFields};
use tapstack::tcb::TcpSocket;
use tapstack::transitions::{TcpError, TcpState};

const LOCAL_ADDR: u32 = 0x0A00_0002;
const REMOTE_ADDR: u32 = 0x0A00_0001;
const LOCAL_PORT: u16 = 40000;
const REMOTE_PORT: u16 = 4242;
const ISS: u32 = 5000;
const SECOND: u64 = 1_000_000;

fn flags(fin: bool, syn: bool, rst: bool, psh: bool, ack: bool) -> TcpFlags {
    TcpFlags { fin, syn, rst, psh, ack }
}

fn inbound(seq: u32, ack: u32, f: TcpFlags, window: u16, payload: &[u8]) -> Segment {
    Segment {
        header: TcpHeaderFields {
            source_port: REMOTE_PORT,
            destination_port: LOCAL_PORT,
            sequence_number: seq,
            acknowledgment_number: ack,
            flags: f,
            window_size: window,
        },
        payload: payload.to_vec(),
    }
}

fn socket() -> TcpSocket {
    TcpSocket::with_iss(
        Endpoint { addr: LOCAL_ADDR, port: LOCAL_PORT },
        Endpoint { addr: REMOTE_ADDR, port: REMOTE_PORT },
        ISS,
    )
}

/// A connection through the handshake, with the segments it sent taken.
fn established() -> TcpSocket {
    let mut s = socket();
    s.connect(0);
    s.on_packet(&inbound(1000, ISS + 1, flags(false, true, false, false, true), 8192, &[]), 10)
        .unwrap();
    s.take_segments();
    s
}

#[test]
fn three_way_handshake() {
    let mut s = socket();
    s.connect(0);
    let sent = s.take_segments();
    assert_eq!(sent.len(), 1);
    assert!(sent[0].header.flags.syn);
    assert!(!sent[0].header.flags.ack);
    assert_eq!(sent[0].header.sequence_number, ISS);
    assert_eq!(sent[0].header.source_port, LOCAL_PORT);
    assert_eq!(sent[0].header.destination_port, REMOTE_PORT);
    assert_eq!(s.state(), TcpState::SynSent);

    let synack = inbound(1000, ISS + 1, flags(false, true, false, false, true), 8192, &[]);
    assert_eq!(s.on_packet(&synack, 10), Ok(()));
    let sent = s.take_segments();
    assert_eq!(sent.len(), 1);
    let h = sent[0].header;
    assert!(h.flags.ack && !h.flags.syn && !h.flags.rst);
    assert_eq!(h.sequence_number, ISS + 1);
    assert_eq!(h.acknowledgment_number, 1001);
    assert!(sent[0].payload.is_empty());
    assert_eq!(s.state(), TcpState::Established);
    assert_eq!(s.send_window_len(), 8192);
    assert_eq!(s.recv_next(), 1001);
    assert_eq!(s.send_unack(), ISS + 1);
    assert!(s.timers().is_empty());
}

#[test]
fn stray_ack_mismatch() {
    let mut s = socket();
    s.connect(0);
    s.take_segments();
    let synack = inbound(1000, ISS + 7, flags(false, true, false, false, true), 8192, &[]);
    s.on_packet(&synack, 10).unwrap();
    let sent = s.take_segments();
    assert_eq!(sent.len(), 1);
    assert!(sent[0].header.flags.rst);
    assert!(!sent[0].header.flags.ack && !sent[0].header.flags.syn);
    assert_eq!(sent[0].header.sequence_number, ISS + 7);
    assert_eq!(s.state(), TcpState::CloseWait);
}

#[test]
fn in_order_data() {
    let mut s = established();
    let data = inbound(1001, ISS + 1, flags(false, false, false, true, true), 8192, b"hello");
    s.on_packet(&data, 20).unwrap();
    assert_eq!(s.recv_next(), 1006);
    let sent = s.take_segments();
    assert_eq!(sent.len(), 1);
    assert!(sent[0].header.flags.ack);
    assert_eq!(sent[0].header.acknowledgment_number, 1006);
    assert!(sent[0].payload.is_empty());
    let mut buf = [0u8; 4096];
    assert_eq!(s.read(&mut buf), Ok(5));
    assert_eq!(&buf[..5], b"hello");
    assert_eq!(s.read(&mut buf), Ok(0));
}

#[test]
fn out_of_order_then_fill() {
    let mut s = established();
    let later = inbound(1006, ISS + 1, flags(false, false, false, true, true), 8192, b"foo");
    s.on_packet(&later, 20).unwrap();
    assert_eq!(s.partial_segment_count(), 1);
    assert_eq!(s.recv_next(), 1001);
    let sent = s.take_segments();
    assert_eq!(sent[0].header.acknowledgment_number, 1001);

    let first = inbound(1001, ISS + 1, flags(false, false, false, true, true), 8192, b"hello");
    s.on_packet(&first, 30).unwrap();
    assert_eq!(s.partial_segment_count(), 0);
    assert_eq!(s.recv_next(), 1009);
    let mut buf = [0u8; 64];
    assert_eq!(s.read(&mut buf), Ok(8));
    assert_eq!(&buf[..8], b"hellofoo");
}

#[test]
fn retransmission_after_rto() {
    let mut s = established();
    let payload: Vec<u8> = (0..100u8).collect();
    assert_eq!(s.write(&payload, 100), Ok(100));
    let sent = s.take_segments();
    assert_eq!(sent.len(), 1);
    assert_eq!(sent[0].payload, payload);
    assert!(sent[0].header.flags.psh);
    assert_eq!(s.rto().rto, 1_000_000);

    assert!(!s.tick(100 + SECOND - 1));
    assert!(s.take_segments().is_empty());

    assert!(!s.tick(100 + SECOND));
    let sent = s.take_segments();
    assert_eq!(sent.len(), 1);
    assert_eq!(sent[0].payload, payload);
    assert!(sent[0].header.flags.psh);
    assert_eq!(sent[0].header.sequence_number, ISS + 1);
    let timers = s.timers();
    assert_eq!(timers.len(), 1);
    assert!(timers[0].retransmitted);
    assert_eq!(timers[0].sent_at, 100 + SECOND);
    assert_eq!(s.rto().rto, 2_000_000);
}

#[test]
fn orderly_close() {
    let mut s = established();
    s.close();
    assert_eq!(s.state(), TcpState::FinWait1);
    assert!(!s.tick(1000));
    let sent = s.take_segments();
    assert_eq!(sent.len(), 1);
    assert!(sent[0].header.flags.fin);
    let fin_seq = sent[0].header.sequence_number;
    assert_eq!(fin_seq, ISS + 1);
    assert_eq!(s.fin_seq(), Some(fin_seq));

    let ack = inbound(1001, fin_seq + 1, flags(false, false, false, false, true), 8192, &[]);
    s.on_packet(&ack, 2000).unwrap();
    assert_eq!(s.state(), TcpState::FinWait2);
    assert!(s.timers().is_empty());

    let fin = inbound(1001, fin_seq + 1, flags(true, false, false, false, true), 8192, &[]);
    s.on_packet(&fin, 3000).unwrap();
    assert_eq!(s.state(), TcpState::TimeWait);
    let sent = s.take_segments();
    assert_eq!(sent.last().unwrap().header.acknowledgment_number, 1002);

    assert!(!s.tick(3000 + 60 * SECOND));
    assert!(s.tick(3000 + 60 * SECOND + 1));
}

fn closed() -> TcpSocket {
    let mut s = socket();
    s.connect(0);
    s.on_packet(&inbound(0, ISS + 1, flags(false, false, true, false, true), 0, &[]), 5).unwrap();
    assert_eq!(s.state(), TcpState::Closed);
    s.take_segments();
    s
}

#[test]
fn rst_in_closed() {
    let mut s = closed();
    let data = inbound(7000, 0, flags(false, false, false, false, false), 100, b"abcd");
    s.on_packet(&data, 10).unwrap();
    let sent = s.take_segments();
    assert_eq!(sent.len(), 1);
    let h = sent[0].header;
    assert!(h.flags.rst && h.flags.ack);
    assert_eq!(h.sequence_number, 0);
    assert_eq!(h.acknowledgment_number, 7004);
    assert_eq!(s.state(), TcpState::Closed);
}

#[test]
fn rst_in_closed_with_ack_uses_their_ack() {
    let mut s = closed();
    let seg = inbound(7000, 123456, flags(false, false, false, false, true), 100, &[]);
    s.on_packet(&seg, 10).unwrap();
    let sent = s.take_segments();
    assert_eq!(sent.len(), 1);
    assert!(sent[0].header.flags.rst && !sent[0].header.flags.ack);
    assert_eq!(sent[0].header.sequence_number, 123456);
}

#[test]
fn closed_answers_each_segment_once_and_ignores_rst() {
    let mut s = closed();
    for i in 0..3u32 {
        let seg = inbound(100 + i, 9, flags(false, false, false, false, true), 10, b"x");
        s.on_packet(&seg, 10).unwrap();
        assert_eq!(s.take_segments().len(), 1);
        assert_eq!(s.state(), TcpState::Closed);
    }
    let rst = inbound(100, 9, flags(false, false, true, false, true), 10, &[]);
    s.on_packet(&rst, 10).unwrap();
    assert!(s.take_segments().is_empty());
}

fn assert_sent_within_window(s: &mut TcpSocket) -> usize {
    let una = s.send_unack();
    let nxt = s.send_next();
    let sent = s.take_segments();
    for seg in &sent {
        let seq = seg.header.sequence_number;
        assert!(seq.wrapping_sub(una) <= nxt.wrapping_sub(una));
    }
    sent.len()
}

#[test]
fn outbound_sequence_numbers_stay_in_window() {
    let mut s = established();
    s.write(&[1u8; 300], 0).unwrap();
    assert_eq!(assert_sent_within_window(&mut s), 1);
    s.write(&[2u8; 200], 0).unwrap();
    assert_eq!(assert_sent_within_window(&mut s), 1);
    let peer_ack = inbound(1001, ISS + 301, flags(false, false, false, false, true), 8192, &[]);
    s.on_packet(&peer_ack, 50).unwrap();
    assert_eq!(assert_sent_within_window(&mut s), 0);
    s.on_packet(&inbound(1001, ISS + 301, flags(false, false, false, true, true), 8192, b"zz"), 60)
        .unwrap();
    assert_eq!(assert_sent_within_window(&mut s), 1);
    s.tick(10 * SECOND);
    assert_eq!(assert_sent_within_window(&mut s), 1);
    s.close();
    s.on_packet(&inbound(1003, ISS + 501, flags(false, false, false, false, true), 8192, &[]), 70)
        .unwrap();
    s.tick(11 * SECOND);
    assert_eq!(assert_sent_within_window(&mut s), 1);
    assert_eq!(s.fin_seq(), Some(ISS + 501));
}

#[test]
fn send_unack_never_moves_back() {
    let mut s = established();
    s.write(&[7u8; 500], 0).unwrap();
    let mut last = s.send_unack();
    for ack in [ISS + 101, ISS + 51, ISS + 401, ISS + 9999, ISS + 501, ISS + 1] {
        let seg = inbound(1001, ack, flags(false, false, false, false, true), 8192, &[]);
        s.on_packet(&seg, 10).unwrap();
        let una = s.send_unack();
        assert!(una.wrapping_sub(last) <= s.send_next().wrapping_sub(last));
        last = una;
    }
    assert_eq!(s.send_unack(), ISS + 501);
}

#[test]
fn receive_is_in_order_across_reads() {
    let mut s = established();
    let parts: [(u32, &[u8]); 4] = [(1011, b"klm"), (1001, b"abcde"), (1006, b"fghij"), (1014, b"no")];
    for (seq, data) in parts {
        let seg = inbound(seq, ISS + 1, flags(false, false, false, true, true), 8192, data);
        s.on_packet(&seg, 10).unwrap();
    }
    let mut got = Vec::new();
    let mut buf = [0u8; 3];
    loop {
        let n = s.read(&mut buf).unwrap();
        if n == 0 {
            break;
        }
        got.extend_from_slice(&buf[..n]);
    }
    assert_eq!(got, b"abcdefghijklmno".to_vec());
}

#[test]
fn karn_no_sample_from_retransmitted_segment() {
    let mut s = established();
    s.write(&[3u8; 10], 0).unwrap();
    s.tick(SECOND);
    assert_eq!(s.rto().rto, 2_000_000);
    let ack = inbound(1001, ISS + 11, flags(false, false, false, false, true), 8192, &[]);
    s.on_packet(&ack, SECOND + 5000).unwrap();
    assert_eq!(s.rto().rto, 2_000_000);
    assert_eq!(s.rto().srtt, 10);
}

#[test]
fn rtt_sample_from_fresh_segment() {
    let mut s = established();
    s.write(&[3u8; 10], 0).unwrap();
    let ack = inbound(1001, ISS + 11, flags(false, false, false, false, true), 8192, &[]);
    // The handshake took 10 us: the first sample sets SRTT = R, RTTVAR = R / 2.
    assert_eq!(s.rto().srtt, 10);
    assert_eq!(s.rto().rttvar, 5);
    s.on_packet(&ack, 200_000).unwrap();
    let e = s.rto();
    // RTTVAR = (3 * 5 + |10 - 200000|) / 4, SRTT = (7 * 10 + 200000) / 8.
    assert_eq!(e.rttvar, 50_001);
    assert_eq!(e.srtt, 25_008);
    assert_eq!(e.rto, 1_000_000);
}

#[test]
fn rto_backoff_doubles_up_to_sixty_seconds() {
    let mut s = established();
    s.write(&[1u8; 10], 0).unwrap();
    s.take_segments();
    let mut now = 0u64;
    let mut expected = 1_000_000u128;
    for _ in 0..10 {
        now += expected as u64;
        s.tick(now);
        assert_eq!(s.take_segments().len(), 1);
        expected = std::cmp::min(expected * 2, 60_000_000);
        assert_eq!(s.rto().rto, expected);
    }
    assert_eq!(s.rto().rto, 60_000_000);
}

#[test]
fn no_orphan_timers_after_ack() {
    let mut s = established();
    s.write(&[1u8; 100], 0).unwrap();
    s.write(&[2u8; 100], 1).unwrap();
    s.write(&[3u8; 100], 2).unwrap();
    assert_eq!(s.timers().len(), 3);
    let ack = inbound(1001, ISS + 151, flags(false, false, false, false, true), 8192, &[]);
    s.on_packet(&ack, 10).unwrap();
    let una = s.send_unack();
    let timers = s.timers();
    assert_eq!(timers.len(), 1);
    for t in timers {
        assert!(t.seq.wrapping_sub(una) < s.send_next().wrapping_sub(una));
    }
}

#[test]
fn write_fills_the_ring_and_no_more() {
    let mut s = socket();
    s.connect(0);
    s.on_packet(&inbound(1000, ISS + 1, flags(false, true, false, false, true), 16, &[]), 10)
        .unwrap();
    assert_eq!(s.write(&[9u8; 10], 0), Ok(10));
    assert_eq!(s.write(&[8u8; 10], 0), Ok(6));
    assert_eq!(s.write(&[7u8; 10], 0), Ok(0));
}

#[test]
fn write_and_read_errors_outside_their_states() {
    let mut s = socket();
    assert_eq!(s.write(b"x", 0), Err(TcpError::NotConnected));
    let mut buf = [0u8; 4];
    assert_eq!(s.read(&mut buf), Err(TcpError::NotConnected));
    let mut s = established();
    s.on_packet(&inbound(1001, ISS + 1, flags(false, false, false, false, true), 8192, b"ab"), 1)
        .unwrap();
    s.on_packet(&inbound(1003, ISS + 1, flags(false, false, true, false, false), 8192, &[]), 2)
        .unwrap();
    assert_eq!(s.state(), TcpState::Closed);
    assert_eq!(s.read(&mut buf), Ok(2));
    assert_eq!(s.read(&mut buf), Err(TcpError::NotConnected));
}

#[test]
fn listen_and_syn_errors() {
    let mut s = socket();
    let seg = inbound(1, 0, flags(false, true, false, false, false), 100, &[]);
    assert_eq!(s.on_packet(&seg, 0), Err(TcpError::NotImplemented));
    let mut s = established();
    let syn = inbound(1001, ISS + 1, flags(false, true, false, false, true), 8192, &[]);
    assert_eq!(s.on_packet(&syn, 0), Err(TcpError::ProtocolViolation));
    assert_eq!(s.state(), TcpState::Established);
}

#[test]
fn unacceptable_segment_gets_duplicate_ack() {
    let mut s = established();
    let far = inbound(1001 + 9000, ISS + 1, flags(false, false, false, false, true), 8192, b"zz");
    s.on_packet(&far, 0).unwrap();
    let sent = s.take_segments();
    assert_eq!(sent.len(), 1);
    assert_eq!(sent[0].header.acknowledgment_number, 1001);
    assert_eq!(sent[0].header.sequence_number, ISS + 1);
    let far_rst = inbound(1001 + 9000, ISS + 1, flags(false, false, true, false, false), 8192, &[]);
    s.on_packet(&far_rst, 0).unwrap();
    assert!(s.take_segments().is_empty());
    assert_eq!(s.state(), TcpState::Established);
}

#[test]
fn rst_with_wrong_sequence_gets_challenge_ack() {
    let mut s = established();
    let rst = inbound(1002, ISS + 1, flags(false, false, true, false, false), 8192, &[]);
    s.on_packet(&rst, 0).unwrap();
    assert_eq!(s.state(), TcpState::Established);
    assert_eq!(s.take_segments().len(), 1);
}

#[test]
fn peer_close_then_last_ack() {
    let mut s = established();
    let fin = inbound(1001, ISS + 1, flags(true, false, false, false, true), 8192, &[]);
    s.on_packet(&fin, 0).unwrap();
    assert_eq!(s.state(), TcpState::CloseWait);
    assert_eq!(s.recv_next(), 1002);
    s.close();
    assert_eq!(s.state(), TcpState::LastAck);
}

#[test]
fn fin_before_ours_is_acked_gives_closing() {
    let mut s = established();
    s.close();
    s.tick(0);
    let fin = inbound(1001, ISS + 1, flags(true, false, false, false, true), 8192, &[]);
    s.on_packet(&fin, 0).unwrap();
    assert_eq!(s.state(), TcpState::Closing);
    let ack = inbound(1002, ISS + 2, flags(false, false, false, false, true), 8192, &[]);
    s.on_packet(&ack, 0).unwrap();
    assert_eq!(s.state(), TcpState::TimeWait);
}

#[test]
fn close_in_syn_sent_aborts() {
    let mut s = socket();
    s.connect(0);
    s.close();
    assert_eq!(s.state(), TcpState::Closed);
}

#[test]
fn syn_is_retransmitted() {
    let mut s = socket();
    s.connect(0);
    s.take_segments();
    s.tick(SECOND);
    let sent = s.take_segments();
    assert_eq!(sent.len(), 1);
    assert!(sent[0].header.flags.syn);
    assert_eq!(sent[0].header.sequence_number, ISS);
}

#[test]
fn sequence_numbers_wrap() {
    let mut s = TcpSocket::with_iss(
        Endpoint { addr: LOCAL_ADDR, port: LOCAL_PORT },
        Endpoint { addr: REMOTE_ADDR, port: REMOTE_PORT },
        u32::MAX,
    );
    s.connect(0);
    s.take_segments();
    let synack = inbound(u32::MAX, 0, flags(false, true, false, false, true), 100, &[]);
    s.on_packet(&synack, 1).unwrap();
    assert_eq!(s.state(), TcpState::Established);
    assert_eq!(s.recv_next(), 0);
    let data = inbound(0, 0, flags(false, false, false, false, true), 100, b"wrap");
    s.on_packet(&data, 2).unwrap();
    assert_eq!(s.recv_next(), 4);
}

#[test]
fn datagrams_carry_the_segments() {
    let mut s = socket();
    s.connect(0);
    let ds = s.take_datagrams();
    assert_eq!(ds.len(), 1);
    let ip = etherparse::Ipv4HeaderSlice::from_slice(&ds[0]).unwrap();
    assert_eq!(u32::from_be_bytes(ip.source()), LOCAL_ADDR);
    assert_eq!(u32::from_be_bytes(ip.destination()), REMOTE_ADDR);
    assert_eq!(ip.ttl(), 64);
    let tcp = etherparse::TcpSlice::from_slice(&ds[0][ip.slice().len()..]).unwrap();
    assert!(tcp.syn());
    assert_eq!(tcp.sequence_number(), ISS);
    assert_eq!(tcp.source_port(), LOCAL_PORT);
    assert_eq!(tcp.destination_port(), REMOTE_PORT);
    assert!(s.take_datagrams().is_empty());
}

#[test]
fn write_is_capped_at_one_datagram() {
    let mut s = socket();
    s.connect(0);
    s.on_packet(&inbound(1000, ISS + 1, flags(false, true, false, false, true), 65535, &[]), 10)
        .unwrap();
    s.take_segments();
    assert_eq!(s.write(&vec![5u8; 65535], 20), Ok(65495));
    let ds = s.take_datagrams();
    assert_eq!(ds.len(), 1);
    assert_eq!(ds[0].len(), 65535);
    assert_eq!(s.write(&[1u8; 100], 30), Ok(40));
}

#[test]
fn ring_slots_follow_sequence_numbers_across_the_wrap() {
    let iss = u32::MAX - 2;
    let mut s = TcpSocket::with_iss(
        Endpoint { addr: LOCAL_ADDR, port: LOCAL_PORT },
        Endpoint { addr: REMOTE_ADDR, port: REMOTE_PORT },
        iss,
    );
    s.connect(0);
    s.on_packet(&inbound(1000, iss.wrapping_add(1), flags(false, true, false, false, true), 1000, &[]), 10)
        .unwrap();
    assert_eq!(s.send_next(), u32::MAX - 1);
    assert_eq!(s.write(b"a", 20), Ok(1));
    assert_eq!(s.write(b"bc", 21), Ok(2));
    assert_eq!(s.write(b"d", 22), Ok(1));
    assert_eq!(s.send_next(), 2);
    s.take_segments();
    s.tick(20 + SECOND);
    let sent = s.take_segments();
    assert_eq!(sent.len(), 1);
    assert_eq!(sent[0].header.sequence_number, u32::MAX - 1);
    assert_eq!(sent[0].payload, b"abcd".to_vec());
}

#[test]
fn datagram_payload_is_the_data() {
    let mut s = established();
    s.write(b"payload", 0).unwrap();
    let ds = s.take_datagrams();
    assert_eq!(ds.len(), 1);
    let ip = etherparse::Ipv4HeaderSlice::from_slice(&ds[0]).unwrap();
    assert_eq!(ip.total_len() as usize, ds[0].len());
    let tcp = etherparse::TcpSlice::from_slice(&ds[0][ip.slice().len()..]).unwrap();
    assert_eq!(tcp.payload(), b"payload");
    assert!(tcp.psh() && tcp.ack());
    assert_eq!(tcp.acknowledgment_number(), 1001);
}
