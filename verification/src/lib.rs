//! WebRTC DataChannel transport for iroh endpoints.
//!
//! Two endpoints upgrade a connection to a direct WebRTC data channel, which is
//! useful wherever a browser is involved or UDP traversal is difficult.
//!
//! - [`transport`] carries QUIC datagrams over data channels. [`WebRtcTransport`] is
//!   the factory; [`WebRtc`] ties it to the ends of its signaling channels.
//! - [`peer_connection`] manages the connections: natively over `str0m`, and in the
//!   browser over its own `RTCPeerConnection`.
//! - [`signaling`] holds the messages that connections are negotiated with, and two
//!   ways to carry them: among the datagrams of a relay, and over streams between
//!   endpoints. Any other carrier works too.
//!
//! The library does no I/O. Sockets, channels and the clock stay with the caller, who
//! hands in what arrived and carries out what is handed back.

pub mod addr;
pub mod config;
pub mod handle;
pub mod net;
pub mod payload;
pub mod peer_connection;
pub mod signaling;
pub mod table;
pub mod text;
pub mod transport;

pub use crate::addr::{to_custom_addr, CustomAddr, EndpointId, SecretKey, WEBRTC_TRANSPORT_ID};
pub use crate::config::{IceServer, WebRtcConfig};
pub use crate::handle::WebRtc;
pub use crate::peer_connection::diagnostics::{webrtc_debug_clear, webrtc_debug_snapshot};
pub use crate::signaling::iroh::SIGNALING_ALPN;
pub use crate::signaling::{SignalingEnvelope, SignalingMsg};
pub use crate::transport::WebRtcTransport;
