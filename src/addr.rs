//! IPv4 addresses and endpoints as plain values, and their dotted-decimal text.

use vstd::prelude::*;

verus! {

/// An IPv4 address, by its four octets in network order.
#[derive(Clone, Copy, Debug, PartialEq, Eq, Structural)]
pub struct Ipv4 {
    pub a: u8,
    pub b: u8,
    pub c: u8,
    pub d: u8,
}

/// An IPv4 address and a UDP port.
#[derive(Clone, Copy, Debug, PartialEq, Eq, Structural)]
pub struct Endpoint {
    pub ip: Ipv4,
    pub port: u16,
}

impl Ipv4 {
    /// The address from its four octets.
    pub fn new(a: u8, b: u8, c: u8, d: u8) -> (r: Ipv4)
        ensures
            r == (Ipv4 { a, b, c, d }),
    {
        Ipv4 { a, b, c, d }
    }

    /// The wildcard address `0.0.0.0`.
    pub fn unspecified() -> (r: Ipv4)
        ensures
            r == (Ipv4 { a: 0, b: 0, c: 0, d: 0 }),
    {
        Ipv4 { a: 0, b: 0, c: 0, d: 0 }
    }

    /// The four octets, in network order.
    pub fn octets(&self) -> (r: [u8; 4])
        ensures
            r@ == seq![self.a, self.b, self.c, self.d],
    {
        [self.a, self.b, self.c, self.d]
    }

    /// Whether the address lies in the multicast range `224.0.0.0/4`.
    pub fn is_multicast(&self) -> (r: bool)
        ensures
            r == (224 <= self.a && self.a <= 239),
    {
        224 <= self.a && self.a <= 239
    }
}

/// ASCII digits of `n` in decimal, without leading zeros.
pub open spec fn decimal(n: nat) -> Seq<u8>
    decreases n,
{
    if n < 10 {
        seq![(48 + n) as u8]
    } else {
        decimal(n / 10) + seq![(48 + n % 10) as u8]
    }
}

/// Dotted-decimal text of an address.
pub open spec fn ipv4_text(ip: Ipv4) -> Seq<u8> {
    decimal(ip.a as nat) + seq![46u8] + decimal(ip.b as nat) + seq![46u8] + decimal(ip.c as nat)
        + seq![46u8] + decimal(ip.d as nat)
}

/// Text of an endpoint: the address, a colon, the port.
pub open spec fn endpoint_text(e: Endpoint) -> Seq<u8> {
    ipv4_text(e.ip) + seq![58u8] + decimal(e.port as nat)
}

/// Appends the decimal digits of `n` to `out`.
pub fn push_decimal(out: &mut Vec<u8>, n: u32)
    ensures
        final(out)@ == old(out)@ + decimal(n as nat),
    decreases n,
{
    if n >= 10 {
        push_decimal(out, n / 10);
    }
    out.push(48 + (n % 10) as u8);
}

/// Appends the dotted-decimal text of `ip` to `out`.
pub fn push_ipv4(out: &mut Vec<u8>, ip: Ipv4)
    ensures
        final(out)@ == old(out)@ + ipv4_text(ip),
{
    push_decimal(out, ip.a as u32);
    out.push(46);
    push_decimal(out, ip.b as u32);
    out.push(46);
    push_decimal(out, ip.c as u32);
    out.push(46);
    push_decimal(out, ip.d as u32);
    assert(out@ =~= old(out)@ + ipv4_text(ip));
}

/// Appends the text of `e` to `out`.
pub fn push_endpoint(out: &mut Vec<u8>, e: Endpoint)
    ensures
        final(out)@ == old(out)@ + endpoint_text(e),
{
    push_ipv4(out, e.ip);
    out.push(58);
    push_decimal(out, e.port as u32);
    assert(out@ =~= old(out)@ + endpoint_text(e));
}

} // verus!
