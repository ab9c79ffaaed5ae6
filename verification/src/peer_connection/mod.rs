//! Management of WebRTC peer connections.
//!
//! The lifecycle of a peer connection: creation, signaling, data transfer and
//! cleanup.

pub mod browser;
pub mod browser_effects;
pub mod browser_promises;
pub mod diagnostics;
pub mod driving;
pub mod effects;
pub mod error;
pub mod flush;
pub mod laws;
pub mod model;
pub mod native;
pub mod negotiation;
pub mod promises;
pub mod rtc;
pub mod stun;

use vstd::prelude::*;

verus! {

/// Label of the unreliable datagram channel.
pub const DATA_CHANNEL_LABEL: &'static str = "iroh-quic";

/// Connection lifecycle state.
#[derive(Debug, Clone, Copy, PartialEq, Eq, Structural)]
pub enum ConnectionState {
    /// The handshake is in progress.
    Connecting,
    /// The data channel is open and ready for data.
    Connected,
    /// The connection failed or was closed.
    Closed,
}

} // verus!
