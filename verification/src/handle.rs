//! The handle that ties a transport to its signaling.

use vstd::prelude::*;

use crate::addr::{derived_public_key, SecretKey};
use crate::config::WebRtcConfig;
use crate::transport::{Control, WebRtcTransport};

verus! {

/// Capacity of the signaling channels, enough to absorb a burst of ICE candidates
/// without blocking the state machine.
pub const SIGNALING_CHANNEL_CAP: usize = 64;

/// Owns the transport factory and the user's ends of the signaling channels.
///
/// `C` are the ends that the bound endpoint takes over, `T` pushes inbound signaling
/// into the transport, and `R` receives outbound signaling from it.
pub struct WebRtc<C, T, R> {
    transport: WebRtcTransport<C>,
    to_transport: T,
    from_transport: Option<R>,
}

impl<C, T, R> WebRtc<C, T, R> {
    /// The transport factory.
    pub closed spec fn factory(&self) -> WebRtcTransport<C> {
        self.transport
    }

    /// What pushes inbound signaling into the transport.
    pub closed spec fn inbound(&self) -> T {
        self.to_transport
    }

    /// What receives outbound signaling, as long as nobody took it.
    pub closed spec fn outbound(&self) -> Option<R> {
        self.from_transport
    }

    /// Creates a handle with its channel ends.
    pub fn new(
        secret_key: SecretKey,
        config: WebRtcConfig,
        channels: C,
        to_transport: T,
        from_transport: R,
    ) -> (handle: Self)
        ensures
            handle.factory().id() == derived_public_key(secret_key@),
            handle.factory().configured() == config,
            handle.factory().unbound() == Some(channels),
            handle.inbound() == to_transport,
            handle.outbound() == Some(from_transport),
    {
        WebRtc {
            transport: WebRtcTransport::new(secret_key, config, channels),
            to_transport,
            from_transport: Some(from_transport),
        }
    }

    /// The transport factory.
    pub fn transport(&mut self) -> (transport: &mut WebRtcTransport<C>)
        ensures
            *transport == old(self).factory(),
            final(self).factory() == *final(transport),
            final(self).inbound() == old(self).inbound(),
            final(self).outbound() == old(self).outbound(),
    {
        &mut self.transport
    }

    /// What pushes inbound signaling into the transport.
    pub fn to_transport_tx(&self) -> (to_transport: &T)
        ensures
            *to_transport == self.inbound(),
    {
        &self.to_transport
    }

    /// Takes the end that receives outbound signaling. It can be taken once, by the
    /// bridge or by a carrier of the user's own.
    pub fn take_outgoing_rx(&mut self) -> (from_transport: Option<R>)
        ensures
            from_transport == old(self).outbound(),
            final(self).outbound() is None,
            final(self).factory() == old(self).factory(),
            final(self).inbound() == old(self).inbound(),
    {
        self.from_transport.take()
    }

    /// What to tell the bound endpoint of a change of the network; nothing before the
    /// transport is bound.
    pub fn on_network_change(&self, major: bool) -> (control: Option<Control>)
        ensures
            control == if self.factory().unbound() is None {
                Some(Control::NetworkChange { major })
            } else {
                None
            },
    {
        self.transport.on_network_change(major)
    }
}

} // verus!
