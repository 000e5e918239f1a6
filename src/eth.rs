//! Ethernet II frame headers.
use crate::util::{be16, unpack_u16};
use vstd::prelude::*;

verus! {

/// The length of an Ethernet II header in bytes.
pub const ETH_HEADER_LEN: usize = 14;

/// An Ethernet II header: destination and source hardware addresses and the
/// type of the payload.
#[derive(Clone, Copy, Debug, Default)]
pub struct EthHdr {
    pub dest_mac: [u8; 6],
    pub source_mac: [u8; 6],
    pub eth_type: u16,
}

/// The first six bytes of `s` as a hardware address.
pub open spec fn mac_at(s: Seq<u8>, start: int) -> Seq<u8> {
    s.subrange(start, start + 6)
}

/// The two bytes of `v` in network byte order.
pub open spec fn be16_bytes(v: u16) -> Seq<u8> {
    seq![(v / 256) as u8, (v % 256) as u8]
}

/// The wire form of an Ethernet II header.
pub open spec fn eth_bytes(dest: Seq<u8>, source: Seq<u8>, eth_type: u16) -> Seq<u8> {
    dest + source + be16_bytes(eth_type)
}

pub(crate) fn mac_from(bytes: &[u8], start: usize) -> (r: [u8; 6])
    requires
        start + 6 <= bytes@.len(),
    ensures
        r@ == mac_at(bytes@, start as int),
{
    let r = [
        bytes[start],
        bytes[start + 1],
        bytes[start + 2],
        bytes[start + 3],
        bytes[start + 4],
        bytes[start + 5],
    ];
    assert(r@ =~= mac_at(bytes@, start as int));
    r
}

pub(crate) fn push_be16(out: &mut Vec<u8>, v: u16)
    ensures
        final(out)@ == old(out)@ + be16_bytes(v),
{
    out.push((v / 256) as u8);
    out.push((v % 256) as u8);
    assert(final(out)@ =~= old(out)@ + be16_bytes(v));
}

pub(crate) fn push_all(out: &mut Vec<u8>, bytes: &[u8])
    ensures
        final(out)@ == old(out)@ + bytes@,
{
    let mut i: usize = 0;
    while i < bytes.len()
        invariant
            i <= bytes@.len(),
            out@ == old(out)@ + bytes@.subrange(0, i as int),
        decreases bytes@.len() - i,
    {
        out.push(bytes[i]);
        i = i + 1;
        assert(out@ =~= old(out)@ + bytes@.subrange(0, i as int));
    }
    assert(bytes@.subrange(0, i as int) =~= bytes@);
}

impl EthHdr {
    /// Reads a header from the first fourteen bytes of a frame.
    pub fn new(bytes: &[u8]) -> (r: Self)
        requires
            bytes@.len() >= ETH_HEADER_LEN,
        ensures
            r.dest_mac@ == mac_at(bytes@, 0),
            r.source_mac@ == mac_at(bytes@, 6),
            r.eth_type as int == be16(bytes@[12], bytes@[13]),
    {
        let dest_mac = mac_from(bytes, 0);
        let source_mac = mac_from(bytes, 6);
        let eth_type = unpack_u16(&bytes[12..14]);
        EthHdr { dest_mac, source_mac, eth_type }
    }

    /// The header in wire form: destination, source, then the type in
    /// network byte order.
    pub fn to_reply_bytes(&self) -> (r: Vec<u8>)
        ensures
            r@ == eth_bytes(self.dest_mac@, self.source_mac@, self.eth_type),
            r@.len() == ETH_HEADER_LEN,
    {
        let mut out: Vec<u8> = Vec::with_capacity(ETH_HEADER_LEN);
        push_all(&mut out, &self.dest_mac);
        push_all(&mut out, &self.source_mac);
        push_be16(&mut out, self.eth_type);
        out
    }
}

} // verus!
