//! Network addresses as plain numbers.

use vstd::prelude::*;

verus! {

/// An IP address.
#[derive(Debug, Clone, Copy, PartialEq, Eq, Structural)]
pub enum IpAddress {
    V4(u32),
    V6(u128),
}

/// An IP address with a port. The flow information and the scope of an IPv4
/// address are zero.
#[derive(Debug, Clone, Copy, PartialEq, Eq, Structural)]
pub struct SocketAddress {
    pub ip: IpAddress,
    pub port: u16,
    pub flowinfo: u32,
    pub scope_id: u32,
}

/// An address to listen on, with the text that shows it.
#[derive(Debug)]
pub struct ListenAddr {
    pub addr: SocketAddress,
    pub text: String,
}

/// A forwarding target as it was written, `host:port`, with its address where the
/// text is an IP literal with a port.
#[derive(Debug)]
pub struct Target {
    pub text: String,
    pub literal: Option<SocketAddress>,
}

impl SocketAddress {
    /// The address of a port on a host.
    pub fn new(ip: IpAddress, port: u16) -> (r: SocketAddress)
        ensures
            r == (SocketAddress { ip, port, flowinfo: 0, scope_id: 0 }),
    {
        SocketAddress { ip, port, flowinfo: 0, scope_id: 0 }
    }

    /// The local address from which a remote one is reached: any interface and any
    /// free port, in the address family of the remote one.
    pub fn local_for(remote: SocketAddress) -> (r: SocketAddress)
        ensures
            r == (SocketAddress {
                ip: match remote.ip {
                    IpAddress::V4(_) => IpAddress::V4(0),
                    IpAddress::V6(_) => IpAddress::V6(0),
                },
                port: 0,
                flowinfo: 0,
                scope_id: 0,
            }),
    {
        match remote.ip {
            IpAddress::V4(_) => SocketAddress::new(IpAddress::V4(0), 0),
            IpAddress::V6(_) => SocketAddress::new(IpAddress::V6(0), 0),
        }
    }
}

} // verus!
