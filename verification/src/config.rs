//! WebRTC transport configuration.

use vstd::prelude::*;

verus! {

/// Configuration for a STUN or TURN server used during ICE gathering.
#[derive(Debug, Clone)]
pub struct IceServer {
    /// STUN/TURN server URLs (e.g. `"stun:stun.l.google.com:19302"`).
    pub urls: Vec<String>,
    /// Optional username for TURN authentication.
    pub username: Option<String>,
    /// Optional credential for TURN authentication.
    pub credential: Option<String>,
}

impl IceServer {
    /// Two public STUN servers, used without authentication.
    pub open spec fn is_default(&self) -> bool {
        &&& self.urls.len() == 2
        &&& self.urls[0]@ == "stun:stun.l.google.com:19302"@
        &&& self.urls[1]@ == "stun:stun1.l.google.com:19302"@
        &&& self.username is None
        &&& self.credential is None
    }
}

impl Default for IceServer {
    fn default() -> (server: Self)
        ensures
            server.is_default(),
    {
        let mut urls: Vec<String> = Vec::new();
        urls.push("stun:stun.l.google.com:19302".to_owned());
        urls.push("stun:stun1.l.google.com:19302".to_owned());
        IceServer { urls, username: None, credential: None }
    }
}

/// Configuration for the WebRTC transport.
#[derive(Debug, Clone)]
pub struct WebRtcConfig {
    /// ICE servers to use for gathering candidates.
    pub ice_servers: Vec<IceServer>,
}

impl Default for WebRtcConfig {
    fn default() -> (config: Self)
        ensures
            config.ice_servers.len() == 1,
            config.ice_servers[0].is_default(),
    {
        let mut ice_servers: Vec<IceServer> = Vec::new();
        ice_servers.push(IceServer::default());
        WebRtcConfig { ice_servers }
    }
}

} // verus!
