//! A userspace TCP/IPv4 stack: the per-connection transmission control block,
//! the four-tuple demultiplexer, and the header codecs around them.
use vstd::prelude::*;

pub mod arp;
pub mod demux;
pub mod eth;
pub mod icmp;
pub mod ip;
pub mod laws;
pub mod rto;
pub mod segment;
pub mod tcb;
pub mod seqnum;
pub mod transitions;
pub mod util;
pub mod wire;

verus! {

/// A layer-2 device as the ARP responder sees it.
pub trait Tap {
    /// The device's hardware address.
    fn mac(&self) -> [u8; 6];

    /// The device's IPv4 address.
    fn ip(&self) -> u32;
}

} // verus!
