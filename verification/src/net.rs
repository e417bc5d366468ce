//! IPv4 addresses and endpoints as plain values.

use vstd::prelude::*;
use vstd::string::*;

use crate::bytes::{be_bytes, law_four_bytes};
use crate::text::{decimal, push_decimal};

verus! {

/// An IPv4 address, as the number that its four octets denote, most significant first.
#[derive(Clone, Copy, Debug, PartialEq, Eq, PartialOrd, Ord, Hash, Structural)]
pub struct Ipv4Addr(pub u32);

/// An IPv4 address with a port.
#[derive(Clone, Copy, Debug, PartialEq, Eq, PartialOrd, Ord, Hash, Structural)]
pub struct SocketAddrV4 {
    pub ip: Ipv4Addr,
    pub port: u16,
}

impl Ipv4Addr {
    /// The address written `a.b.c.d`.
    pub fn new(a: u8, b: u8, c: u8, d: u8) -> (ip: Self)
        ensures
            ip.octets() == seq![a, b, c, d],
            ip.0 == a * 0x100_0000 + b * 0x1_0000 + c * 0x100 + d,
    {
        let bits: u32 = a as u32 * 0x100_0000 + b as u32 * 0x1_0000 + c as u32 * 0x100 + d as u32;
        proof {
            law_four_bytes(bits as nat);
            assert(bits / 0x100_0000 == a);
            assert(bits / 0x1_0000 % 0x100 == b);
            assert(bits / 0x100 % 0x100 == c);
            assert(bits % 0x100 == d);
            assert(be_bytes(bits as nat, 4) =~= seq![a, b, c, d]);
        }
        Ipv4Addr(bits)
    }

    /// The four octets, most significant first.
    pub open spec fn octets(self) -> Seq<u8> {
        be_bytes(self.0 as nat, 4)
    }

    /// The address in the usual notation.
    pub open spec fn dotted(self) -> Seq<char> {
        decimal((self.0 / 0x100_0000) as nat) + "."@ + decimal(
            ((self.0 / 0x1_0000) % 256) as nat,
        ) + "."@ + decimal(((self.0 / 0x100) % 256) as nat) + "."@ + decimal(
            (self.0 % 256) as nat,
        )
    }

    /// Appends the address in the usual notation.
    pub fn push_dotted(self, out: &mut String)
        ensures
            final(out)@ == old(out)@ + self.dotted(),
    {
        push_decimal(out, (self.0 / 0x100_0000) as u64);
        out.append(".");
        push_decimal(out, ((self.0 / 0x1_0000) % 256) as u64);
        out.append(".");
        push_decimal(out, ((self.0 / 0x100) % 256) as u64);
        out.append(".");
        push_decimal(out, (self.0 % 256) as u64);
        assert(out@ =~= old(out)@ + self.dotted());
    }

    /// The address in the usual notation, as a string.
    pub fn to_string(&self) -> (text: String)
        ensures
            text@ == self.dotted(),
    {
        let mut text = String::new();
        self.push_dotted(&mut text);
        assert(text@ =~= self.dotted());
        text
    }
}

impl SocketAddrV4 {
    /// The endpoint at an address and a port.
    pub fn new(ip: Ipv4Addr, port: u16) -> (endpoint: Self)
        ensures
            endpoint == (SocketAddrV4 { ip, port }),
    {
        SocketAddrV4 { ip, port }
    }
}

/// An address is written as its four octets, most significant first, with points between them.
pub proof fn law_dotted_shows_the_octets(ip: Ipv4Addr)
    ensures
        ip.octets().len() == 4,
        ip.octets()[0] * 0x100_0000 + ip.octets()[1] * 0x1_0000 + ip.octets()[2] * 0x100
            + ip.octets()[3] == ip.0,
        ip.dotted() == decimal(ip.octets()[0] as nat) + "."@ + decimal(ip.octets()[1] as nat) + "."@
            + decimal(ip.octets()[2] as nat) + "."@ + decimal(ip.octets()[3] as nat),
{
    law_four_bytes(ip.0 as nat);
}

} // verus!
