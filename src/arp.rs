//! Address Resolution Protocol packets (RFC 826).
use crate::eth::{be16_bytes, eth_bytes, mac_at, mac_from, push_all, push_be16, EthHdr};
use crate::util::{be16, unpack_u16};
use crate::Tap;
use vstd::prelude::*;

verus! {

/// The EtherType of ARP.
pub const ETH_P_ARP: u16 = 0x0806;

/// The ARP operation code of a reply.
pub const ARPOP_REPLY: u16 = 2;

/// The length of an ARP packet for Ethernet and IPv4 addresses.
pub const ARP_PACKET_LEN: usize = 28;

/// An ARP packet for 6-byte hardware and 4-byte protocol addresses.
#[derive(Clone, Copy, Debug, Default)]
pub struct ArpHdr {
    pub htype: u16,
    pub ptype: u16,
    pub hlen: u8,
    pub plen: u8,
    pub oper: u16,
    pub sha: [u8; 6],
    pub spa: [u8; 4],
    pub tha: [u8; 6],
    pub tpa: [u8; 4],
}

/// The wire form of a reply to `req`, sent from hardware address `mac`: an
/// Ethernet header addressed to the requester, then the request with the
/// operation set to reply and the sender and target swapped, the local
/// hardware address taking the sender's place.
pub open spec fn arp_reply_bytes(req: ArpHdr, mac: Seq<u8>) -> Seq<u8> {
    eth_bytes(req.sha@, mac, ETH_P_ARP) + be16_bytes(req.htype) + be16_bytes(req.ptype) + seq![
        req.hlen,
        req.plen,
    ] + be16_bytes(ARPOP_REPLY) + mac + req.tpa@ + req.sha@ + req.spa@
}

fn addr_from(bytes: &[u8], start: usize) -> (r: [u8; 4])
    requires
        start + 4 <= bytes@.len(),
    ensures
        r@ == bytes@.subrange(start as int, start + 4),
{
    let r = [bytes[start], bytes[start + 1], bytes[start + 2], bytes[start + 3]];
    assert(r@ =~= bytes@.subrange(start as int, start + 4));
    r
}

impl ArpHdr {
    /// Reads a packet from its first twenty-eight bytes.
    pub fn new(bytes: &[u8]) -> (r: Self)
        requires
            bytes@.len() >= ARP_PACKET_LEN,
        ensures
            r.htype as int == be16(bytes@[0], bytes@[1]),
            r.ptype as int == be16(bytes@[2], bytes@[3]),
            r.hlen == bytes@[4],
            r.plen == bytes@[5],
            r.oper as int == be16(bytes@[6], bytes@[7]),
            r.sha@ == mac_at(bytes@, 8),
            r.spa@ == bytes@.subrange(14, 18),
            r.tha@ == mac_at(bytes@, 18),
            r.tpa@ == bytes@.subrange(24, 28),
    {
        ArpHdr {
            htype: unpack_u16(&bytes[0..2]),
            ptype: unpack_u16(&bytes[2..4]),
            hlen: bytes[4],
            plen: bytes[5],
            oper: unpack_u16(&bytes[6..8]),
            sha: mac_from(bytes, 8),
            spa: addr_from(bytes, 14),
            tha: mac_from(bytes, 18),
            tpa: addr_from(bytes, 24),
        }
    }

    /// The Ethernet frame that answers this request from the device `tap`.
    /// The device's hardware address is read once; it stands in the frame's
    /// source and in the packet's sender field.
    pub fn to_reply_bytes<T: Tap>(&self, tap: &T) -> (r: Vec<u8>)
        ensures
            r@.len() == 42,
            r@ == arp_reply_bytes(*self, r@.subrange(6, 12)),
    {
        let mac = tap.mac();
        let eth = EthHdr { dest_mac: self.sha, source_mac: mac, eth_type: ETH_P_ARP };
        let mut out = eth.to_reply_bytes();
        push_be16(&mut out, self.htype);
        push_be16(&mut out, self.ptype);
        out.push(self.hlen);
        out.push(self.plen);
        push_be16(&mut out, ARPOP_REPLY);
        push_all(&mut out, &mac);
        push_all(&mut out, &self.tpa);
        push_all(&mut out, &self.sha);
        push_all(&mut out, &self.spa);
        assert(out@.subrange(6, 12) =~= mac@);
        assert(out@ =~= arp_reply_bytes(*self, mac@));
        out
    }
}

} // verus!
