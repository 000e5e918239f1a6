use tapstack::arp::ArpHdr;
use tapstack::eth::EthHdr;
use tapstack::icmp::IcmpHdr;
use tapstack::ip::IpHdr;
use tapstack::seqnum::is_acceptable;
use tapstack::util::{bytes_to_ip, bytes_to_mac, unpack_u16, unpack_u32};
use tapstack::Tap;

#[test]
fn unpack_big_endian() {
    assert_eq!(unpack_u16(&[0x12, 0x34]), 0x1234);
    assert_eq!(unpack_u32(&[0xde, 0xad, 0xbe, 0xef]), 0xdead_beef);
}

#[test]
fn address_text() {
    assert_eq!(bytes_to_mac(&[0x02, 0x00, 0x5e, 0x10, 0x0a, 0xff]), "02:00:5e:10:0a:ff");
    assert_eq!(bytes_to_ip(&[10, 0, 0, 2]), "10.0.0.2");
    assert_eq!(bytes_to_ip(&[255, 199, 9, 100]), "255.199.9.100");
    assert_eq!(bytes_to_mac(&[]), "");
}

fn ipv4_header() -> Vec<u8> {
    let mut h = vec![
        0x45, 0x00, 0x00, 0x54, 0x1c, 0x46, 0x40, 0x00, 0x40, 0x01, 0x00, 0x00, 10, 0, 0, 1, 10, 0,
        0, 2,
    ];
    let c = IpHdr::cksum(&h);
    // The computed sum is stored with its first byte low, as it was added.
    h[10] = (c & 0xff) as u8;
    h[11] = (c >> 8) as u8;
    h
}

#[test]
fn ipv4_header_fields() {
    let h = ipv4_header();
    assert_eq!(IpHdr::cksum(&h), 0);
    let ip = IpHdr::new(&h);
    assert_eq!(ip.version(), 4);
    assert_eq!(ip.ihl(), 5);
    assert_eq!(ip.flags(), 2);
    assert_eq!(ip.frag_offset(), 0);
    assert_eq!(ip.tlen, 0x54);
    assert_eq!(ip.ttl, 64);
    assert_eq!(ip.proto, 1);
    assert_eq!(ip.src_addr, 0x0A00_0001);
    assert_eq!(ip.dst_addr, 0x0A00_0002);
}

#[test]
fn checksum_of_known_header() {
    let mut h = ipv4_header();
    h[10] = 0;
    h[11] = 0;
    assert_ne!(IpHdr::cksum(&h), 0);
    assert_eq!(IpHdr::cksum(&[0xff, 0xff]), 0);
    assert_eq!(IpHdr::cksum(&[]), 0xffff);
}

#[test]
fn checksum_of_textbook_header() {
    let h = [
        0x45, 0x00, 0x00, 0x73, 0x00, 0x00, 0x40, 0x00, 0x40, 0x11, 0x00, 0x00, 0xc0, 0xa8, 0x00,
        0x01, 0xc0, 0xa8, 0x00, 0xc7,
    ];
    // 0xb861 in network order, read with the first byte low.
    assert_eq!(IpHdr::cksum(&h), 0x61b8);
}

#[test]
fn ethernet_round_trip() {
    let frame = [1, 2, 3, 4, 5, 6, 7, 8, 9, 10, 11, 12, 0x08, 0x06, 99];
    let eth = EthHdr::new(&frame);
    assert_eq!(eth.dest_mac, [1, 2, 3, 4, 5, 6]);
    assert_eq!(eth.source_mac, [7, 8, 9, 10, 11, 12]);
    assert_eq!(eth.eth_type, 0x0806);
    assert_eq!(eth.to_reply_bytes(), frame[..14].to_vec());
}

struct Device;

impl Tap for Device {
    fn mac(&self) -> [u8; 6] {
        [0xaa, 0xbb, 0xcc, 0xdd, 0xee, 0xff]
    }

    fn ip(&self) -> u32 {
        0x0A00_0002
    }
}

#[test]
fn arp_request_and_reply() {
    let req: Vec<u8> = vec![
        0, 1, 8, 0, 6, 4, 0, 1, 1, 2, 3, 4, 5, 6, 10, 0, 0, 1, 0, 0, 0, 0, 0, 0, 10, 0, 0, 2,
    ];
    let arp = ArpHdr::new(&req);
    assert_eq!(arp.htype, 1);
    assert_eq!(arp.ptype, 0x0800);
    assert_eq!(arp.oper, 1);
    assert_eq!(arp.sha, [1, 2, 3, 4, 5, 6]);
    assert_eq!(arp.spa, [10, 0, 0, 1]);
    assert_eq!(arp.tpa, [10, 0, 0, 2]);
    let reply = arp.to_reply_bytes(&Device);
    let mut expected = vec![1, 2, 3, 4, 5, 6, 0xaa, 0xbb, 0xcc, 0xdd, 0xee, 0xff, 0x08, 0x06];
    expected.extend_from_slice(&[0, 1, 8, 0, 6, 4, 0, 2]);
    expected.extend_from_slice(&[0xaa, 0xbb, 0xcc, 0xdd, 0xee, 0xff, 10, 0, 0, 2]);
    expected.extend_from_slice(&[1, 2, 3, 4, 5, 6, 10, 0, 0, 1]);
    assert_eq!(reply, expected);
}

#[test]
fn icmp_header_fields() {
    let icmp = IcmpHdr::new(&[8, 0, 0xf7, 0xff, 0, 1, 0, 2]);
    assert_eq!(icmp.typ, 8);
    assert_eq!(icmp.code, 0);
    assert_eq!(icmp.cksum, 0xf7ff);
    assert_eq!(icmp.content, 0x0001_0002);
    icmp.payload();
}

#[test]
fn acceptability_is_cyclic() {
    assert!(is_acceptable(1000, 100, 1000, 0));
    assert!(is_acceptable(1000, 100, 1099, 0));
    assert!(!is_acceptable(1000, 100, 1100, 0));
    assert!(!is_acceptable(1000, 100, 999, 0));
    assert!(is_acceptable(1000, 100, 990, 20));
    assert!(!is_acceptable(1000, 0, 1000, 0));
    assert!(is_acceptable(u32::MAX - 5, 100, 3, 0));
    assert!(is_acceptable(u32::MAX - 5, 100, u32::MAX - 10, 10));
}
