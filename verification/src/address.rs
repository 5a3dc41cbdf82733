use vstd::prelude::*;

verus! {

/// A socket address, held as plain integers: the IP address by its numeric
/// value, the port, and for IPv6 the flow label and scope id.
#[derive(Clone, Copy, Debug, PartialEq, Eq, Structural)]
pub enum SocketAddress {
    V4 { ip: u32, port: u16 },
    V6 { ip6: u128, port: u16, flowinfo: u32, scope_id: u32 },
}

} // verus!
