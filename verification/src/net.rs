//! Socket addresses as plain values.

use vstd::prelude::*;

verus! {

/// An IP address and a port.
#[allow(inconsistent_fields)]
#[derive(Debug, Clone, Copy, PartialEq, Eq)]
pub enum SocketAddr {
    /// An IPv4 address.
    V4 {
        /// The four octets of the address.
        octets: [u8; 4],
        /// The port.
        port: u16,
    },
    /// An IPv6 address.
    V6 {
        /// The sixteen octets of the address.
        octets: [u8; 16],
        /// The port.
        port: u16,
    },
}

/// What a [`SocketAddr`] says.
#[allow(inconsistent_fields)]
#[verifier::ext_equal]
pub enum SocketAddrView {
    /// An IPv4 address.
    V4 { octets: Seq<u8>, port: u16 },
    /// An IPv6 address.
    V6 { octets: Seq<u8>, port: u16 },
}

impl SocketAddr {
    /// What the address says.
    pub open spec fn view(&self) -> SocketAddrView {
        match self {
            SocketAddr::V4 { octets, port } => SocketAddrView::V4 { octets: octets@, port: *port },
            SocketAddr::V6 { octets, port } => SocketAddrView::V6 { octets: octets@, port: *port },
        }
    }
}

} // verus!
