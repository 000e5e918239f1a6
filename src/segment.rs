//! The values that travel between the demultiplexer and a connection: the
//! endpoints of a connection, and TCP segments with their header fields.
use vstd::prelude::*;

verus! {

/// An IPv4 address and a port.
#[derive(Clone, Copy, Debug, PartialEq, Eq, Structural)]
pub struct Endpoint {
    pub addr: u32,
    pub port: u16,
}

/// The TCP control flags that this stack reads and writes.
#[derive(Clone, Copy, Debug, PartialEq, Eq, Structural)]
pub struct TcpFlags {
    pub fin: bool,
    pub syn: bool,
    pub rst: bool,
    pub psh: bool,
    pub ack: bool,
}

/// A TCP header without options; its checksum is left to the codec.
#[derive(Clone, Copy, Debug, PartialEq, Eq, Structural)]
pub struct TcpHeaderFields {
    pub source_port: u16,
    pub destination_port: u16,
    pub sequence_number: u32,
    pub acknowledgment_number: u32,
    pub flags: TcpFlags,
    pub window_size: u16,
}

/// A TCP segment: its header and its payload.
#[derive(Clone, Debug)]
pub struct Segment {
    pub header: TcpHeaderFields,
    pub payload: Vec<u8>,
}

/// No flag set.
pub open spec fn no_flags() -> TcpFlags {
    TcpFlags { fin: false, syn: false, rst: false, psh: false, ack: false }
}

impl TcpFlags {
    /// No flag set.
    pub fn none() -> (r: TcpFlags)
        ensures
            r == no_flags(),
    {
        TcpFlags { fin: false, syn: false, rst: false, psh: false, ack: false }
    }
}

impl Segment {
    /// The header and the payload's bytes.
    pub open spec fn model(&self) -> (TcpHeaderFields, Seq<u8>) {
        (self.header, self.payload@)
    }
}

} // verus!
