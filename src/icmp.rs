//! Internet Control Message Protocol headers (RFC 792).
use crate::util::{be16, be32, unpack_u16, unpack_u32};
use vstd::prelude::*;

verus! {

/// An ICMP header: type, code, checksum and the four bytes whose meaning
/// depends on the type.
#[derive(Debug, Copy, Clone)]
pub struct IcmpHdr {
    pub typ: u8,
    pub code: u8,
    pub cksum: u16,
    pub content: u32,
}

/// The identifier and sequence number of an echo request or reply.
#[derive(Debug, Copy, Clone)]
pub struct IcmpEcho {
    id: u16,
    seq: u16,
}

/// The ICMP type of an echo reply.
pub const ICMP_CONTROL_ECHO_REPLY: u8 = 0;

/// The ICMP type of an echo request.
pub const ICMP_CONTROL_ECHO_REQUEST: u8 = 8;

impl IcmpHdr {
    /// Reads a header from the first eight bytes of a message.
    pub fn new(bytes: &[u8]) -> (r: Self)
        requires
            bytes@.len() >= 8,
        ensures
            r.typ == bytes@[0],
            r.code == bytes@[1],
            r.cksum as int == be16(bytes@[2], bytes@[3]),
            r.content as int == be32(bytes@[4], bytes@[5], bytes@[6], bytes@[7]),
    {
        IcmpHdr {
            typ: bytes[0],
            code: bytes[1],
            cksum: unpack_u16(&bytes[2..4]),
            content: unpack_u32(&bytes[4..8]),
        }
    }

    /// The message body is not kept: nothing to return.
    pub fn payload(&self) {
    }
}

} // verus!
