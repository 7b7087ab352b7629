use vstd::prelude::*;

use crate::address::{SocketAddress, LOOPBACK_V4};
use crate::errors::ErrorKind;

verus! {

/// Where a member listens and which peers it first asks to join.
pub struct Config {
    pub listen_port: SocketAddress,
    pub peer_addresses: Vec<SocketAddress>,
}

impl Config {
    /// A member listening on the loopback address at `port`.
    pub fn listen_local(port: u16, peer_addresses: Vec<SocketAddress>) -> (r: Config)
        ensures
            r.listen_port == (SocketAddress::V4 { ip: LOOPBACK_V4, port }),
            r.peer_addresses@ == peer_addresses@,
    {
        Config {
            listen_port: SocketAddress::V4 { ip: LOOPBACK_V4, port: port },
            peer_addresses: peer_addresses,
        }
    }
}

/// A member ready to be served with the given configuration.
pub struct Server {
    pub config: Config,
}

/// A server for `config`.
pub fn server(config: Config) -> (r: Result<Server, ErrorKind>)
    ensures
        r matches Ok(s) && s.config.listen_port == config.listen_port && s.config.peer_addresses@
            == config.peer_addresses@,
{
    Ok(Server { config: config })
}

} // verus!
