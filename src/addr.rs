use vstd::prelude::*;

verus! {

/// A network address that peers exchange: an IP address, held as the 128 bits
/// of an IPv6 address (IPv4 addresses in their IPv4-mapped form), and a TCP port.
#[derive(Clone, Copy, Debug, PartialEq, Eq, Structural)]
pub struct Addr {
    pub ip: u128,
    pub port: u16,
}

/// Whether an IP address is globally reachable (not private, loopback,
/// link-local, documentation, unspecified and the like).
pub uninterp spec fn reachable(ip: u128) -> bool;

/// An IPv4-mapped address in a range that is never reachable: unspecified
/// (0.0.0.0), loopback (127/8), or private (10/8, 172.16/12, 192.168/16).
pub open spec fn ipv4_unroutable(ip: u128) -> bool {
    let v4 = ip % 0x1_0000_0000;
    &&& ip / 0x1_0000_0000 == 0xffff
    &&& {
        ||| v4 == 0
        ||| v4 / 0x100_0000 == 127
        ||| v4 / 0x100_0000 == 10
        ||| v4 / 0x10_0000 == 0xac1
        ||| v4 / 0x1_0000 == 0xc0a8
    }
}

/// Relies on tentacle::utils::is_reachable, which classifies an IP address by
/// its value alone; an IPv4-mapped address is handed over as IPv4. Unspecified,
/// loopback and private IPv4 addresses, and the IPv6 unspecified (`::`) and
/// loopback (`::1`) addresses, are not reachable.
#[verifier::external_body]
pub(crate) fn ip_is_reachable(ip: u128) -> (r: bool)
    ensures
        r == reachable(ip),
        ipv4_unroutable(ip) ==> !r,
        ip == 0 || ip == 1 ==> !r,
{
    tentacle::utils::is_reachable(core::net::Ipv6Addr::from(ip).to_canonical())
}

/// What is known of a peer's own address: the address observed on the
/// connection, or an address the peer listens on.
#[derive(Clone, Copy, Debug, PartialEq, Eq, Structural)]
pub enum RemoteAddress {
    Init(Addr),
    Listen(Addr),
}

impl RemoteAddress {
    pub open spec fn addr(self) -> Addr {
        match self {
            RemoteAddress::Init(a) => a,
            RemoteAddress::Listen(a) => a,
        }
    }

    /// The peer's address with its port replaced by the port it listens on.
    pub open spec fn port_updated(self, port: u16) -> RemoteAddress {
        match self {
            RemoteAddress::Init(a) => RemoteAddress::Listen(Addr { port, ..a }),
            RemoteAddress::Listen(a) => RemoteAddress::Listen(Addr { port, ..a }),
        }
    }

    /// The address itself, whichever kind it is.
    pub fn to_inner(&self) -> (r: Addr)
        ensures
            r == self.addr(),
    {
        match self {
            RemoteAddress::Init(a) => *a,
            RemoteAddress::Listen(a) => *a,
        }
    }

    /// The address takes the peer's listen port and becomes a listen address.
    pub fn update_port(&mut self, port: u16)
        ensures
            *final(self) == old(self).port_updated(port),
    {
        let a = self.to_inner();
        *self = RemoteAddress::Listen(Addr { port, ..a });
    }

    /// Marks the address as one the peer listens on.
    pub fn change_to_listen(&mut self)
        ensures
            *final(self) == RemoteAddress::Listen(old(self).addr()),
    {
        let a = self.to_inner();
        *self = RemoteAddress::Listen(a);
    }
}

} // verus!
