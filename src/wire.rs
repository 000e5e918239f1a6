//! The IPv4/TCP codec: datagrams parsed into segments and segments
//! serialised into datagrams, with the checksums the codec computes.
use crate::segment::{Segment, TcpFlags, TcpHeaderFields};
use crate::util::{be16, be32};
use vstd::arithmetic::power2::pow2;
use vstd::prelude::*;

verus! {

/// The IP protocol number of TCP.
pub const IP_PROTOCOL_TCP: u8 = 6;

/// The largest TCP payload that fits one IPv4 datagram with option-free IPv4
/// and TCP headers.
pub const MAX_TCP_PAYLOAD: usize = 65495;

/// What the demultiplexer reads from an IPv4 header.
#[derive(Clone, Copy, Debug, PartialEq, Eq, Structural)]
pub struct Ipv4Info {
    pub source: u32,
    pub destination: u32,
    pub protocol: u8,
    pub header_len: usize,
}

/// The datagram that the codec writes for a TCP segment from `src` to `dst`,
/// checksums included.
pub uninterp spec fn ipv4_tcp_datagram(
    src: u32,
    dst: u32,
    header: TcpHeaderFields,
    payload: Seq<u8>,
) -> Seq<u8>;

/// The IPv4 header at the start of `b`: at least twenty bytes, version 4,
/// a header length (`IHL` words) of at least five words that `b` holds;
/// then the protocol at byte 9 and the addresses at bytes 12 and 16.
pub open spec fn ipv4_header_of(b: Seq<u8>) -> Option<Ipv4Info> {
    if b.len() < 20 || b[0] / 16 != 4 || b[0] % 16 < 5 || b.len() < (b[0] % 16) as int * 4 {
        None
    } else {
        Some(
            Ipv4Info {
                source: be32(b[12], b[13], b[14], b[15]) as u32,
                destination: be32(b[16], b[17], b[18], b[19]) as u32,
                protocol: b[9],
                header_len: ((b[0] % 16) as int * 4) as usize,
            },
        )
    }
}

/// Bit `k` of byte `x`.
pub open spec fn bit(x: u8, k: nat) -> bool {
    (x as nat / pow2(k)) % 2 == 1
}

/// The TCP segment in `b`: a header of at least twenty bytes whose length
/// (data offset, high four bits of byte 12, in words) `b` holds, the fields
/// at their fixed offsets, and the rest of `b` as the payload.
pub open spec fn tcp_segment_of(b: Seq<u8>) -> Option<(TcpHeaderFields, Seq<u8>)> {
    if b.len() < 20 {
        None
    } else {
        let hl = (b[12] / 16) as int * 4;
        if hl < 20 || b.len() < hl {
            None
        } else {
            Some(
                (
                    TcpHeaderFields {
                        source_port: be16(b[0], b[1]) as u16,
                        destination_port: be16(b[2], b[3]) as u16,
                        sequence_number: be32(b[4], b[5], b[6], b[7]) as u32,
                        acknowledgment_number: be32(b[8], b[9], b[10], b[11]) as u32,
                        flags: TcpFlags {
                            fin: bit(b[13], 0),
                            syn: bit(b[13], 1),
                            rst: bit(b[13], 2),
                            psh: bit(b[13], 3),
                            ack: bit(b[13], 4),
                        },
                        window_size: be16(b[14], b[15]) as u16,
                    },
                    b.subrange(hl, b.len() as int),
                ),
            )
        }
    }
}

/// Relies on etherparse's `PacketBuilder::ipv4(..).tcp_header(..).write`: it
/// writes an IPv4 header (TTL 64), the TCP header and the payload, and fails
/// only when the payload does not fit the IPv4 and TCP length fields.
#[verifier::external_body]
pub(crate) fn encode_datagram(
    src: u32,
    dst: u32,
    h: TcpHeaderFields,
    payload: &[u8],
) -> (r: Option<Vec<u8>>)
    ensures
        r is Some <==> payload@.len() <= MAX_TCP_PAYLOAD,
        r matches Some(b) ==> b@ == ipv4_tcp_datagram(src, dst, h, payload@),
{
    let mut t = etherparse::TcpHeader::new(h.source_port, h.destination_port, h.sequence_number, h.window_size);
    t.acknowledgment_number = h.acknowledgment_number;
    (t.fin, t.syn, t.rst, t.psh, t.ack) = (h.flags.fin, h.flags.syn, h.flags.rst, h.flags.psh, h.flags.ack);
    let builder = etherparse::PacketBuilder::ipv4(src.to_be_bytes(), dst.to_be_bytes(), 64).tcp_header(t);
    let mut out = Vec::new();
    builder.write(&mut out, payload).ok().map(|_| out)
}

/// Relies on etherparse's `Ipv4HeaderSlice::from_slice`, which accepts
/// exactly the headers that [`ipv4_header_of`] describes, and on its field
/// accessors.
#[verifier::external_body]
pub(crate) fn parse_ipv4_header(bytes: &[u8]) -> (r: Option<Ipv4Info>)
    ensures
        r == ipv4_header_of(bytes@),
{
    etherparse::Ipv4HeaderSlice::from_slice(bytes).ok().map(|ip| Ipv4Info {
        source: u32::from_be_bytes(ip.source()),
        destination: u32::from_be_bytes(ip.destination()),
        protocol: ip.protocol().0,
        header_len: ip.slice().len(),
    })
}

/// Relies on etherparse's `TcpSlice::from_slice`, which accepts exactly the
/// segments that [`tcp_segment_of`] describes, and on its field accessors.
#[verifier::external_body]
pub(crate) fn parse_tcp_segment(bytes: &[u8]) -> (r: Option<Segment>)
    ensures
        r matches Some(s) ==> tcp_segment_of(bytes@) == Some(s.model()),
        r is None ==> tcp_segment_of(bytes@) is None,
{
    etherparse::TcpSlice::from_slice(bytes).ok().map(|t| Segment {
        header: TcpHeaderFields {
            source_port: t.source_port(),
            destination_port: t.destination_port(),
            sequence_number: t.sequence_number(),
            acknowledgment_number: t.acknowledgment_number(),
            flags: TcpFlags { fin: t.fin(), syn: t.syn(), rst: t.rst(), psh: t.psh(), ack: t.ack() },
            window_size: t.window_size(),
        },
        payload: t.payload().to_vec(),
    })
}

} // verus!
