//! IPv4 headers (RFC 791).
use crate::util::{be16, be32, unpack_u16, unpack_u32};
use vstd::prelude::*;

verus! {

/// The length of an IPv4 header without options.
pub const IPV4_MIN_HEADER_LEN: usize = 20;

/// An IPv4 header without its options.
#[derive(Copy, Clone, Debug)]
pub struct IpHdr {
    /// The version in the high four bits, the header length in 32-bit words
    /// in the low four.
    pub version_ihl: u8,
    pub tos: u8,
    pub tlen: u16,
    pub identification: u16,
    /// The three flag bits above the thirteen bits of the fragment offset.
    pub flags_frag_offset: u16,
    pub ttl: u8,
    pub proto: u8,
    pub hdr_cksum: u16,
    pub src_addr: u32,
    pub dst_addr: u32,
}

/// The sum of the header's 16-bit words, each word read with its first byte
/// low, as the reference algorithm of RFC 1071 adds them on a little-endian
/// machine.
pub open spec fn word_sum(bytes: Seq<u8>) -> nat
    decreases bytes.len(),
{
    if bytes.len() == 0 {
        0
    } else {
        let i = bytes.len() - 1;
        let w = if i % 2 == 0 {
            bytes[i] as nat
        } else {
            bytes[i] as nat * 256
        };
        word_sum(bytes.drop_last()) + w
    }
}

/// End-around carry: the carries out of the low sixteen bits are added back
/// in until none are left.
pub open spec fn fold_carries(sum: nat) -> nat
    decreases sum,
{
    if sum < 65536 {
        sum
    } else if sum % 65536 + sum / 65536 < sum {
        fold_carries(sum % 65536 + sum / 65536)
    } else {
        sum
    }
}

/// The ones' complement of the folded sum: zero for a header whose checksum
/// field is correct.
pub open spec fn header_checksum(bytes: Seq<u8>) -> int {
    65535 - fold_carries(word_sum(bytes)) as int
}

/// The header length in bytes that the version/IHL byte announces.
pub open spec fn announced_len(version_ihl: u8) -> int {
    (version_ihl % 16) as int * 4
}

proof fn lemma_word_sum_bound(bytes: Seq<u8>)
    ensures
        word_sum(bytes) <= bytes.len() * 65280,
    decreases bytes.len(),
{
    if bytes.len() > 0 {
        lemma_word_sum_bound(bytes.drop_last());
    }
}

impl IpHdr {
    /// Reads a header from the start of a datagram.
    pub fn new(bytes: &[u8]) -> (r: Self)
        requires
            bytes@.len() >= IPV4_MIN_HEADER_LEN,
            announced_len(bytes@[0]) <= bytes@.len(),
            header_checksum(bytes@.subrange(0, announced_len(bytes@[0]))) == 0,
        ensures
            r.version_ihl == bytes@[0],
            r.tos == bytes@[1],
            r.tlen as int == be16(bytes@[2], bytes@[3]),
            r.identification as int == be16(bytes@[4], bytes@[5]),
            r.flags_frag_offset as int == be16(bytes@[6], bytes@[7]),
            r.ttl == bytes@[8],
            r.proto == bytes@[9],
            r.hdr_cksum as int == be16(bytes@[10], bytes@[11]),
            r.src_addr as int == be32(bytes@[12], bytes@[13], bytes@[14], bytes@[15]),
            r.dst_addr as int == be32(bytes@[16], bytes@[17], bytes@[18], bytes@[19]),
    {
        IpHdr {
            version_ihl: bytes[0],
            tos: bytes[1],
            tlen: unpack_u16(&bytes[2..4]),
            identification: unpack_u16(&bytes[4..6]),
            flags_frag_offset: unpack_u16(&bytes[6..8]),
            ttl: bytes[8],
            proto: bytes[9],
            hdr_cksum: unpack_u16(&bytes[10..12]),
            src_addr: unpack_u32(&bytes[12..16]),
            dst_addr: unpack_u32(&bytes[16..20]),
        }
    }

    /// Computes the header checksum over `bytes`: zero when the checksum
    /// field they hold is correct.
    pub fn cksum(bytes: &[u8]) -> (r: u16)
        requires
            bytes@.len() <= 65535,
        ensures
            r as int == header_checksum(bytes@),
    {
        let mut sum: u32 = 0;
        let mut idx: usize = 0;
        while idx < bytes.len()
            invariant
                idx <= bytes@.len() <= 65535,
                sum as nat == word_sum(bytes@.subrange(0, idx as int)),
            decreases bytes@.len() - idx,
        {
            proof {
                lemma_word_sum_bound(bytes@.subrange(0, idx as int));
            }
            let byte = bytes[idx] as u32;
            if idx % 2 == 0 {
                sum = sum + byte;
            } else {
                sum = sum + byte * 256;
            }
            assert(bytes@.subrange(0, idx + 1).drop_last() =~= bytes@.subrange(0, idx as int));
            idx = idx + 1;
        }
        assert(bytes@.subrange(0, idx as int) =~= bytes@);
        while sum / 65536 != 0
            invariant
                fold_carries(sum as nat) == fold_carries(word_sum(bytes@)),
            decreases sum,
        {
            sum = sum % 65536 + sum / 65536;
        }
        (65535 - sum) as u16
    }

    /// The IP version: the high four bits of the first byte.
    pub fn version(&self) -> (r: u8)
        ensures
            r == self.version_ihl / 16,
    {
        self.version_ihl / 16
    }

    /// The header length in 32-bit words: the low four bits of the first
    /// byte.
    pub fn ihl(&self) -> (r: u8)
        ensures
            r == self.version_ihl % 16,
    {
        self.version_ihl % 16
    }

    /// The three flag bits: the high bits of the seventh and eighth bytes.
    pub fn flags(&self) -> (r: u16)
        ensures
            r == self.flags_frag_offset / 8192,
    {
        self.flags_frag_offset / 8192
    }

    /// The fragment offset: the low thirteen bits of the same word.
    pub fn frag_offset(&self) -> (r: u16)
        ensures
            r == self.flags_frag_offset % 8192,
    {
        self.flags_frag_offset % 8192
    }
}

} // verus!
