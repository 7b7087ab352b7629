use vstd::prelude::*;

verus! {

/// An IP address held as plain integers: the four octets of an IPv4 address
/// in network order as a `u32`, or the sixteen octets of an IPv6 address as
/// a `u128`.
#[derive(Clone, Copy, Debug, PartialEq, Eq, Hash, Structural)]
pub enum IpAddress {
    V4(u32),
    V6(u128),
}

/// A socket address: an IP address, a port and, for IPv6, the flow
/// information and scope identifier.
#[allow(inconsistent_fields)]
#[derive(Clone, Copy, Debug, PartialEq, Eq, Hash, Structural)]
pub enum SocketAddress {
    V4 { ip: u32, port: u16 },
    V6 { ip: u128, port: u16, flowinfo: u32, scope_id: u32 },
}

/// The socket address made of `ip` and `port`, with no IPv6 flow
/// information or scope.
pub open spec fn spec_socket_address(ip: IpAddress, port: u16) -> SocketAddress {
    match ip {
        IpAddress::V4(a) => SocketAddress::V4 { ip: a, port },
        IpAddress::V6(a) => SocketAddress::V6 { ip: a, port, flowinfo: 0, scope_id: 0 },
    }
}

impl SocketAddress {
    /// Builds the socket address of `ip` and `port`.
    pub fn new(ip: IpAddress, port: u16) -> (r: SocketAddress)
        ensures
            r == spec_socket_address(ip, port),
    {
        match ip {
            IpAddress::V4(a) => SocketAddress::V4 { ip: a, port },
            IpAddress::V6(a) => SocketAddress::V6 { ip: a, port, flowinfo: 0, scope_id: 0 },
        }
    }

    /// The port of this address.
    pub fn port(&self) -> (r: u16)
        ensures
            r == (match *self {
                SocketAddress::V4 { port, .. } => port,
                SocketAddress::V6 { port, .. } => port,
            }),
    {
        match *self {
            SocketAddress::V4 { port, .. } => port,
            SocketAddress::V6 { port, .. } => port,
        }
    }
}

/// The IPv4 loopback address 127.0.0.1.
pub const LOOPBACK_V4: u32 = 0x7f00_0001u32;

} // verus!
