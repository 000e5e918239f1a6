//! Byte helpers shared by the header codecs: big-endian integers and the
//! textual forms of hardware and protocol addresses.
use vstd::prelude::*;

verus! {

/// The value of two bytes read in network (big-endian) order.
pub open spec fn be16(b0: u8, b1: u8) -> int {
    b0 as int * 256 + b1 as int
}

/// The value of four bytes read in network (big-endian) order.
pub open spec fn be32(b0: u8, b1: u8, b2: u8, b3: u8) -> int {
    b0 as int * 16777216 + b1 as int * 65536 + b2 as int * 256 + b3 as int
}

/// Reads a 16-bit integer stored in network byte order.
pub fn unpack_u16(bytes: &[u8]) -> (r: u16)
    requires
        bytes@.len() == 2,
    ensures
        r as int == be16(bytes@[0], bytes@[1]),
{
    (bytes[0] as u16) * 256 + (bytes[1] as u16)
}

/// Reads a 32-bit integer stored in network byte order.
pub fn unpack_u32(bytes: &[u8]) -> (r: u32)
    requires
        bytes@.len() == 4,
    ensures
        r as int == be32(bytes@[0], bytes@[1], bytes@[2], bytes@[3]),
{
    (bytes[0] as u32) * 16777216 + (bytes[1] as u32) * 65536 + (bytes[2] as u32) * 256
        + (bytes[3] as u32)
}


/// The ASCII code of a hexadecimal digit, lower case.
pub open spec fn hex_digit(d: nat) -> u8 {
    if d < 10 {
        (48 + d) as u8
    } else {
        (87 + d) as u8
    }
}

/// A byte as two lower-case hexadecimal digits.
pub open spec fn hex_pair(b: u8) -> Seq<u8> {
    seq![hex_digit(b as nat / 16), hex_digit(b as nat % 16)]
}

/// A number in decimal ASCII digits, without leading zeros.
pub open spec fn decimal(n: nat) -> Seq<u8>
    decreases n,
{
    if n < 10 {
        seq![(48 + n) as u8]
    } else {
        decimal(n / 10).push((48 + n % 10) as u8)
    }
}

/// Each byte in hexadecimal followed by a colon.
pub open spec fn hex_colon_list(s: Seq<u8>) -> Seq<u8>
    decreases s.len(),
{
    if s.len() == 0 {
        seq![]
    } else {
        hex_colon_list(s.drop_last()) + hex_pair(s.last()).push(58u8)
    }
}

/// Each byte in decimal followed by a dot.
pub open spec fn decimal_dot_list(s: Seq<u8>) -> Seq<u8>
    decreases s.len(),
{
    if s.len() == 0 {
        seq![]
    } else {
        decimal_dot_list(s.drop_last()) + decimal(s.last() as nat).push(46u8)
    }
}

/// A list of items with its final separator removed.
pub open spec fn without_trailing(s: Seq<u8>) -> Seq<u8> {
    if s.len() == 0 {
        s
    } else {
        s.drop_last()
    }
}

/// The characters whose codes are the given ASCII bytes.
pub open spec fn ascii_chars(s: Seq<u8>) -> Seq<char> {
    s.map_values(|b: u8| b as char)
}

/// Relies on `String::from_utf8`: a byte vector that is valid UTF-8, as ASCII
/// is, becomes a string of exactly those characters.
#[verifier::external_body]
fn ascii_to_string(bytes: Vec<u8>) -> (r: String)
    requires
        forall|i: int| 0 <= i < bytes@.len() ==> bytes@[i] < 128,
    ensures
        r@ == ascii_chars(bytes@),
{
    String::from_utf8(bytes).unwrap()
}

fn hex_digit_exec(d: u8) -> (r: u8)
    requires
        d < 16,
    ensures
        r == hex_digit(d as nat),
        r < 128,
{
    if d < 10 {
        48 + d
    } else {
        87 + d
    }
}

fn push_decimal(out: &mut Vec<u8>, b: u8)
    ensures
        final(out)@ == old(out)@ + decimal(b as nat),
        forall|i: int|
            0 <= i < final(out)@.len() - old(out)@.len() ==> 48 <= #[trigger] decimal(
                b as nat,
            )[i] < 58,
{
    reveal_with_fuel(decimal, 3);
    if b >= 100 {
        out.push(48 + b / 100);
        out.push(48 + (b / 10) % 10);
        out.push(48 + b % 10);
    } else if b >= 10 {
        out.push(48 + b / 10);
        out.push(48 + b % 10);
    } else {
        out.push(48 + b);
    }
    assert(final(out)@ =~= old(out)@ + decimal(b as nat));
}

/// Formats a hardware address as colon-separated lower-case hexadecimal
/// pairs, such as `02:00:5e:10:00:01`.
pub fn bytes_to_mac(bytes: &[u8]) -> (r: String)
    ensures
        r@ == ascii_chars(without_trailing(hex_colon_list(bytes@))),
{
    let mut out: Vec<u8> = Vec::new();
    let mut i: usize = 0;
    while i < bytes.len()
        invariant
            i <= bytes@.len(),
            out@ == hex_colon_list(bytes@.subrange(0, i as int)),
            forall|j: int| 0 <= j < out@.len() ==> out@[j] < 128,
        decreases bytes@.len() - i,
    {
        let b = bytes[i];
        let hi = hex_digit_exec(b / 16);
        let lo = hex_digit_exec(b % 16);
        out.push(hi);
        out.push(lo);
        out.push(58);
        assert(bytes@.subrange(0, i + 1).drop_last() =~= bytes@.subrange(0, i as int));
        i = i + 1;
    }
    assert(bytes@.subrange(0, i as int) =~= bytes@);
    if out.len() > 0 {
        out.pop();
    }
    proof {
        assert(forall|j: int| 0 <= j < out@.len() ==> out@[j] < 128);
    }
    ascii_to_string(out)
}

/// Formats a protocol address as dot-separated decimal numbers, such as
/// `10.0.0.2`.
pub fn bytes_to_ip(bytes: &[u8]) -> (r: String)
    ensures
        r@ == ascii_chars(without_trailing(decimal_dot_list(bytes@))),
{
    let mut out: Vec<u8> = Vec::new();
    let mut i: usize = 0;
    while i < bytes.len()
        invariant
            i <= bytes@.len(),
            out@ == decimal_dot_list(bytes@.subrange(0, i as int)),
            forall|j: int| 0 <= j < out@.len() ==> out@[j] < 128,
        decreases bytes@.len() - i,
    {
        let ghost before = out@;
        push_decimal(&mut out, bytes[i]);
        out.push(46);
        assert(bytes@.subrange(0, i + 1).drop_last() =~= bytes@.subrange(0, i as int));
        assert forall|j: int| 0 <= j < out@.len() implies out@[j] < 128 by {
            if j >= before.len() && j < out@.len() - 1 {
                assert(out@[j] == decimal(bytes@[i as int] as nat)[j - before.len()]);
            }
        }
        i = i + 1;
    }
    assert(bytes@.subrange(0, i as int) =~= bytes@);
    if out.len() > 0 {
        out.pop();
    }
    ascii_to_string(out)
}

} // verus!
