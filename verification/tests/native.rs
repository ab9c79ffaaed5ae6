//! Peer connections over real `str0m` sessions. Datagrams travel from one manager
//! to the other in memory, and time is simulated.

use std::time::{Duration, Instant};

use iroh_webrtc::addr::{to_custom_addr, EndpointId, SecretKey};
use iroh_webrtc::net::SocketAddr;
use iroh_webrtc::peer_connection::error::{ConnectError, PeerError};
use iroh_webrtc::peer_connection::model::Packet;
use iroh_webrtc::peer_connection::native::{
    answer_offer, conclude_answer, conclude_write, PeerConnectionManager,
};
use iroh_webrtc::peer_connection::rtc::{is_data_only, IceState, RtcEvent, WriteOutcome};
use iroh_webrtc::peer_connection::ConnectionState;
use iroh_webrtc::signaling::{SignalingEnvelope, SignalingMsg};
use iroh_webrtc::transport::send::{poll_send, QueuedPolicy, SendPoll};

type Manager = PeerConnectionManager<u16, u32>;

const MINIMAL_SDP: &str = "v=0\r\no=- 0 0 IN IP4 0.0.0.0\r\ns=-\r\nt=0 0\r\n";

/// An offer of audio and video that gives both the same payload type.
const MEDIA_SDP: &str = "v=0\r\no=- 1 1 IN IP4 0.0.0.0\r\ns=-\r\nt=0 0\r\n\
    a=group:BUNDLE 0 1\r\n\
    a=ice-ufrag:abcd\r\na=ice-pwd:abcdefghijklmnopqrstuvwx\r\n\
    a=fingerprint:sha-256 00:11:22:33:44:55:66:77:88:99:AA:BB:CC:DD:EE:FF:\
    00:11:22:33:44:55:66:77:88:99:AA:BB:CC:DD:EE:FF\r\n\
    a=setup:actpass\r\n\
    m=audio 9 UDP/TLS/RTP/SAVPF 111\r\nc=IN IP4 0.0.0.0\r\na=mid:0\r\na=sendrecv\r\n\
    a=rtcp-mux\r\na=rtpmap:111 opus/48000/2\r\n\
    m=video 9 UDP/TLS/RTP/SAVPF 111\r\nc=IN IP4 0.0.0.0\r\na=mid:1\r\na=sendrecv\r\n\
    a=rtcp-mux\r\na=rtpmap:111 VP8/90000\r\n";

const ADDR_A: SocketAddr = SocketAddr::V4 {
    octets: [10, 0, 0, 1],
    port: 4001,
};

const ADDR_B: SocketAddr = SocketAddr::V4 {
    octets: [10, 0, 0, 2],
    port: 4002,
};

fn generate() -> EndpointId {
    SecretKey::from_bytes(&iroh_base::SecretKey::generate().to_bytes()).public()
}

fn ordered() -> (EndpointId, EndpointId) {
    let (a, b) = (generate(), generate());
    if a.less_than(&b) {
        (a, b)
    } else {
        (b, a)
    }
}

fn bind_a() -> Result<(u16, SocketAddr), String> {
    Ok((1, ADDR_A))
}

fn bind_b() -> Result<(u16, SocketAddr), String> {
    Ok((2, ADDR_B))
}

fn bind_fails() -> Result<(u16, SocketAddr), String> {
    Err("no socket".to_string())
}

fn would_block(result: Result<(), ConnectError<String>>) -> bool {
    result == Err(ConnectError::Peer(PeerError::WouldBlock))
}

fn dispatch_signaling(
    mgr: &mut Manager,
    env: &SignalingEnvelope,
    now: Instant,
    bind: fn() -> Result<(u16, SocketAddr), String>,
) -> Result<(), ConnectError<String>> {
    match &env.msg {
        SignalingMsg::Offer { session_id, sdp } => {
            mgr.handle_offer(env.peer, *session_id, sdp, now, &bind)
        }
        SignalingMsg::Answer { session_id, sdp } => mgr
            .handle_answer(env.peer, *session_id, sdp)
            .map_err(ConnectError::Peer),
        SignalingMsg::IceCandidate {
            session_id,
            candidate,
            sdp_mid,
        } => mgr
            .handle_ice_candidate(env.peer, *session_id, candidate, sdp_mid.as_deref())
            .map_err(ConnectError::Peer),
        SignalingMsg::Close { session_id } => {
            mgr.handle_close(env.peer, *session_id);
            Ok(())
        }
    }
}

/// Relays all pending signaling messages between two managers.
///
/// Outgoing envelopes have `peer` = destination, but the receiving manager
/// expects `peer` = source (like the relay would set it). This function
/// remaps accordingly.
fn relay_signaling(
    id_a: EndpointId,
    id_b: EndpointId,
    mgr_a: &mut Manager,
    mgr_b: &mut Manager,
    now: Instant,
) {
    // A → B: remap peer to A (the source)
    for env in mgr_a.take_signaling() {
        let remapped = SignalingEnvelope {
            peer: id_a,
            msg: env.msg,
        };
        let _ = dispatch_signaling(mgr_b, &remapped, now, bind_b);
    }
    // B → A: remap peer to B (the source)
    for env in mgr_b.take_signaling() {
        let remapped = SignalingEnvelope {
            peer: id_b,
            msg: env.msg,
        };
        let _ = dispatch_signaling(mgr_a, &remapped, now, bind_a);
    }
}

/// Takes what `from` wants sent to `to` out of its outbox.
fn carry(
    from: &mut Manager,
    from_id: EndpointId,
    from_addr: SocketAddr,
    to_id: EndpointId,
    to_addr: SocketAddr,
) -> Vec<Packet> {
    from.take_transmits(&to_id)
        .into_iter()
        .map(|transmit| Packet {
            peer: from_id,
            source: from_addr,
            local: to_addr,
            data: transmit.contents.to_vec(),
        })
        .collect()
}

struct Pair {
    id_a: EndpointId,
    id_b: EndpointId,
    a: Manager,
    b: Manager,
    now: Instant,
}

impl Pair {
    fn new() -> Self {
        let (id_a, id_b) = (generate(), generate());
        Pair {
            id_a,
            id_b,
            a: Manager::new(id_a),
            b: Manager::new(id_b),
            now: Instant::now(),
        }
    }

    fn round(&mut self) {
        relay_signaling(self.id_a, self.id_b, &mut self.a, &mut self.b, self.now);
        let to_b = carry(&mut self.a, self.id_a, ADDR_A, self.id_b, ADDR_B);
        let to_a = carry(&mut self.b, self.id_b, ADDR_B, self.id_a, ADDR_A);
        self.a.poll(self.now, &to_a);
        self.b.poll(self.now, &to_b);
        self.now += Duration::from_millis(10);
    }

    fn connect(&mut self) {
        assert!(would_block(
            self.a.send(self.id_b, b"first", 7, self.now, &bind_a)
        ));
        for _ in 0..1500 {
            self.round();
            let connected = Some(ConnectionState::Connected);
            if self.a.connection_state(&self.id_b) == connected
                && self.b.connection_state(&self.id_a) == connected
            {
                return;
            }
        }
        panic!("the channel did not open");
    }

    fn delivered_to_b(&mut self) -> Vec<Vec<u8>> {
        let mut all = Vec::new();
        for _ in 0..50 {
            self.round();
            for (from, data) in self.b.take_datagrams() {
                assert_eq!(from, self.id_a);
                all.push(data.to_vec());
            }
        }
        all
    }
}

/// Tests that two native PeerConnectionManagers can connect via signaling
/// and exchange datagrams over a DataChannel.
#[test]
fn test_native_peer_connection_data_exchange() {
    let id_a = generate();
    let id_b = generate();

    let mut mgr_a = Manager::new(id_a);
    let mut mgr_b = Manager::new(id_b);

    // A sends to B — triggers connection initiation, queues data
    let mut now = Instant::now();
    let test_data = b"hello from A to B";
    let err = mgr_a.send(id_b, test_data, 0, now, &bind_a).unwrap_err();
    assert_eq!(err, ConnectError::Peer(PeerError::WouldBlock));

    // Drive ICE/DTLS until data arrives or timeout
    let deadline = now + Duration::from_secs(15);

    loop {
        assert!(
            now < deadline,
            "timeout: WebRTC DataChannel did not open within 15s"
        );

        // Relay signaling messages between managers
        relay_signaling(id_a, id_b, &mut mgr_a, &mut mgr_b, now);

        // Drive str0m I/O on both sides
        let to_b = carry(&mut mgr_a, id_a, ADDR_A, id_b, ADDR_B);
        let to_a = carry(&mut mgr_b, id_b, ADDR_B, id_a, ADDR_A);
        mgr_a.poll(now, &to_a);
        mgr_b.poll(now, &to_b);

        // Check if B received the data
        if let Some((from, data)) = mgr_b.take_datagrams().pop() {
            assert_eq!(from, id_a);
            assert_eq!(&data[..], test_data);
            return; // Success
        }

        now += Duration::from_millis(10);
    }
}

/// Tests that glare resolution works: when both peers initiate simultaneously,
/// the peer with the smaller EndpointId yields.
#[test]
fn test_glare_resolution() {
    let (polite_id, impolite_id) = ordered();

    let mut polite_mgr = Manager::new(polite_id);
    let mut impolite_mgr = Manager::new(impolite_id);
    let now = Instant::now();

    // Both sides initiate (via send which triggers initiate)
    let _ = polite_mgr.send(impolite_id, b"ping", 0, now, &bind_a);
    let _ = impolite_mgr.send(polite_id, b"ping", 0, now, &bind_b);

    // The polite peer receives an offer from the impolite peer.
    // Since polite already has a pending connection, glare is detected.
    // The polite peer yields: drops its own connection and accepts.
    let result = polite_mgr.handle_offer(impolite_id, 99, MINIMAL_SDP, now, &bind_a);
    // The description has no media, so the session refuses it. The attempt of the
    // polite peer is gone all the same.
    assert!(matches!(
        result,
        Err(ConnectError::Peer(PeerError::OfferRefused(_)))
    ));
    assert_eq!(polite_mgr.connection_state(&impolite_id), None);

    // The impolite peer receives an offer from the polite peer.
    // It should ignore it.
    let result = impolite_mgr.handle_offer(polite_id, 100, MINIMAL_SDP, now, &bind_b);
    // Should succeed (returns Ok) but not create a new connection
    assert!(result.is_ok());
    assert_eq!(
        impolite_mgr.connection_state(&polite_id),
        Some(ConnectionState::Connecting)
    );
    assert_eq!(impolite_mgr.take_signaling().len(), 1);
}

/// Tests that sending to a closed connection triggers re-initiation.
#[test]
fn test_reconnect_after_close() {
    let id_a = generate();
    let id_b = generate();
    let mut mgr = Manager::new(id_a);
    let now = Instant::now();

    // First send — initiates connection
    let err = mgr.send(id_b, b"first", 0, now, &bind_a).unwrap_err();
    assert_eq!(err, ConnectError::Peer(PeerError::WouldBlock));

    // Drain the signaling offer
    let envelope = mgr.take_signaling().pop().expect("should have offer");
    let session_1 = match &envelope.msg {
        SignalingMsg::Offer { session_id, .. } => *session_id,
        other => panic!("expected Offer, got {other:?}"),
    };

    // Close the session
    mgr.handle_close(id_b, session_1);

    // Second send — should re-initiate with a new session
    let err = mgr.send(id_b, b"second", 0, now, &bind_a).unwrap_err();
    assert_eq!(err, ConnectError::Peer(PeerError::WouldBlock));

    let envelope = mgr.take_signaling().pop().expect("should have new offer");
    let session_2 = match &envelope.msg {
        SignalingMsg::Offer { session_id, .. } => *session_id,
        other => panic!("expected Offer, got {other:?}"),
    };

    // Should be a different session
    assert_ne!(session_1, session_2);
}

/// Verifies str0m can parse ICE candidate strings in browser format.
///
/// Browsers return candidates from `RTCIceCandidate.candidate` in a
/// specific format (with "candidate:" prefix, possibly with extensions
/// like "generation" and "network-cost"). str0m must parse these for
/// cross-platform ICE to work.
#[test]
fn test_parse_browser_ice_candidates() {
    let id_b = generate();
    let mut mgr = Manager::new(generate());
    let _ = mgr.send(id_b, b"test", 0, Instant::now(), &bind_a);

    // Typical browser host candidate
    let host = "candidate:842163049 1 udp 2122260223 192.168.1.100 54321 typ host generation 0 ufrag 1234 network-id 1 network-cost 10";
    let result = mgr.handle_ice_candidate(id_b, 0, host, None);
    assert!(
        result.is_ok(),
        "Failed to parse browser host candidate: {result:?}"
    );

    // Browser SRFLX candidate (via STUN)
    let srflx = "candidate:842163049 1 udp 1677729535 203.0.113.5 54321 typ srflx raddr 192.168.1.100 rport 12345 generation 0 ufrag 1234 network-id 1";
    let result = mgr.handle_ice_candidate(id_b, 0, srflx, Some("0"));
    assert!(
        result.is_ok(),
        "Failed to parse browser srflx candidate: {result:?}"
    );

    // Minimal candidate (no extensions)
    let minimal = "candidate:1 1 udp 2130706175 10.0.0.1 5000 typ host";
    let result = mgr.handle_ice_candidate(id_b, 0, minimal, None);
    assert!(
        result.is_ok(),
        "Failed to parse minimal candidate: {result:?}"
    );
}

/// Verifies that str0m includes the host candidate in the SDP offer,
/// which is needed for browsers to learn the native peer's ICE candidate.
#[test]
fn test_sdp_contains_host_candidate() {
    let mut mgr = Manager::new(generate());
    let peer_id = generate();

    // Trigger initiate to generate an offer
    let _ = mgr.send(peer_id, b"test", 0, Instant::now(), &bind_a);

    let envelope = mgr.take_signaling().pop().expect("should have offer");
    let sdp = match &envelope.msg {
        SignalingMsg::Offer { sdp, .. } => sdp,
        other => panic!("expected Offer, got {other:?}"),
    };

    // The SDP must contain at least one candidate line
    assert!(
        sdp.contains("a=candidate:"),
        "SDP offer must include host candidate line(s).\nSDP:\n{sdp}"
    );

    // The candidate should be for the address of the socket
    assert!(
        sdp.contains("10.0.0.1 4001 typ host"),
        "SDP must include the socket's address.\nSDP:\n{sdp}"
    );
}

#[test]
fn address_that_no_host_has_is_not_offered() {
    for octets in [[0, 0, 0, 0], [255, 255, 255, 255], [224, 0, 0, 1], [169, 254, 1, 1]] {
        let mut mgr = Manager::new(generate());
        let bind = || Ok::<_, String>((1u16, SocketAddr::V4 { octets, port: 9 }));
        let _ = mgr.send(generate(), b"test", 0, Instant::now(), &bind);
        match &mgr.take_signaling()[0].msg {
            SignalingMsg::Offer { sdp, .. } => assert!(!sdp.contains("a=candidate:")),
            other => panic!("expected Offer, got {other:?}"),
        }
    }
}

#[test]
fn ipv6_socket_is_offered() {
    let mut octets = [0u8; 16];
    octets[0] = 0x20;
    octets[1] = 0x01;
    octets[15] = 7;
    let mut mgr = Manager::new(generate());
    let bind = || Ok::<_, String>((1u16, SocketAddr::V6 { octets, port: 9 }));
    let _ = mgr.send(generate(), b"test", 0, Instant::now(), &bind);
    match &mgr.take_signaling()[0].msg {
        SignalingMsg::Offer { sdp, .. } => assert!(sdp.contains("2001::7 9 typ host")),
        other => panic!("expected Offer, got {other:?}"),
    }
}

#[test]
fn queued_datagrams_arrive_in_order_and_the_sender_is_woken() {
    let mut pair = Pair::new();
    pair.connect();
    assert_eq!(pair.a.take_woken(), vec![7]);
    for n in 0..5u8 {
        assert_eq!(pair.a.send(pair.id_b, &[n], 0, pair.now, &bind_a), Ok(()));
    }
    let mut expected = vec![b"first".to_vec()];
    expected.extend((0..5u8).map(|n| vec![n]));
    assert_eq!(pair.delivered_to_b(), expected);
    assert!(pair.a.take_woken().is_empty());
}

#[test]
fn segments_arrive_as_datagrams_of_their_own() {
    let mut pair = Pair::new();
    pair.connect();
    pair.delivered_to_b();
    let outcome = poll_send(
        &mut pair.a,
        &to_custom_addr(pair.id_b),
        &[1, 2, 3, 4, 5],
        Some(2),
        &0,
        pair.now,
        &bind_a,
        QueuedPolicy::Wait,
    );
    assert_eq!(outcome, SendPoll::Ready);
    assert_eq!(
        pair.delivered_to_b(),
        vec![vec![1, 2], vec![3, 4], vec![5]]
    );
}

#[test]
fn what_is_done_with_one_peer_leaves_the_others_alone() {
    let mut pair = Pair::new();
    pair.connect();
    let other = generate();
    let now = pair.now;
    let _ = pair.a.send(other, b"x", 0, now, &bind_a);
    let _ = pair.a.handle_offer(other, 9, "not sdp", now, &bind_a);
    let _ = pair.a.handle_answer(other, 9, "not sdp");
    pair.a.handle_event(other, RtcEvent::Ice(IceState::Disconnected));
    pair.a.handle_close(other, 1);
    assert_eq!(pair.a.connection_state(&other), None);
    // What was meant for the other peer.
    pair.a.take_signaling();
    assert_eq!(
        pair.a.connection_state(&pair.id_b),
        Some(ConnectionState::Connected)
    );
    assert_eq!(pair.a.send(pair.id_b, b"still", 0, now, &bind_a), Ok(()));
    assert_eq!(pair.delivered_to_b().last(), Some(&b"still".to_vec()));
}

#[test]
fn send_flushes_at_once() {
    let mut pair = Pair::new();
    pair.connect();
    pair.delivered_to_b();
    pair.a.take_transmits(&pair.id_b);
    assert_eq!(pair.a.send(pair.id_b, b"now", 0, pair.now, &bind_a), Ok(()));
    assert!(!pair.a.take_transmits(&pair.id_b).is_empty());
}

#[test]
fn accepted_offer_replaces_a_connection_that_is_not_being_set_up() {
    let mut pair = Pair::new();
    pair.connect();
    // A fresh offer of a third manager with A's identity.
    let mut again = Manager::new(pair.id_a);
    let _ = again.send(pair.id_b, b"again", 0, pair.now, &bind_a);
    let (session_id, sdp) = match again.take_signaling().remove(0).msg {
        SignalingMsg::Offer { session_id, sdp } => (session_id, sdp),
        other => panic!("expected Offer, got {other:?}"),
    };
    assert_eq!(session_id, 0);
    assert_eq!(
        pair.b
            .handle_offer(pair.id_a, 55, &sdp, pair.now, &bind_b),
        Ok(())
    );
    assert_eq!(
        pair.b.connection_state(&pair.id_a),
        Some(ConnectionState::Connecting)
    );
    let answer = pair.b.take_signaling().remove(0);
    assert_eq!(answer.peer, pair.id_a);
    assert!(matches!(
        answer.msg,
        SignalingMsg::Answer { session_id: 55, .. }
    ));
}

#[test]
fn failed_offer_leaves_an_open_connection_alone() {
    let mut pair = Pair::new();
    pair.connect();
    let id_a = pair.id_a;
    let result = pair.b.handle_offer(id_a, 1, "not sdp", pair.now, &bind_b);
    assert!(matches!(
        result,
        Err(ConnectError::Peer(PeerError::InvalidOffer(_)))
    ));
    let result = pair.b.handle_offer(id_a, 1, MINIMAL_SDP, pair.now, &bind_fails);
    assert_eq!(result, Err(ConnectError::Bind("no socket".to_string())));
    assert_eq!(
        pair.b.connection_state(&id_a),
        Some(ConnectionState::Connected)
    );
}

#[test]
fn polite_attempt_is_gone_even_if_no_socket_can_be_bound() {
    let (low, high) = ordered();
    let mut mgr = Manager::new(low);
    let now = Instant::now();
    let _ = mgr.send(high, b"x", 0, now, &bind_a);
    let result = mgr.handle_offer(high, 1, MINIMAL_SDP, now, &bind_fails);
    assert_eq!(result, Err(ConnectError::Bind("no socket".to_string())));
    assert_eq!(mgr.connection_state(&high), None);
}

#[test]
fn failed_bind_uses_a_session_id_up() {
    let mut mgr = Manager::new(generate());
    let peer = generate();
    let now = Instant::now();
    assert_eq!(
        mgr.send(peer, b"x", 0, now, &bind_fails),
        Err(ConnectError::Bind("no socket".to_string()))
    );
    assert!(mgr.peer_ids().is_empty());
    assert!(mgr.take_signaling().is_empty());
    let _ = mgr.send(peer, b"x", 0, now, &bind_a);
    assert!(matches!(
        mgr.take_signaling()[0].msg,
        SignalingMsg::Offer { session_id: 1, .. }
    ));
    assert_eq!(mgr.socket(&peer), Some(&1));
}

#[test]
fn socket_is_bound_only_for_a_new_connection() {
    let mut mgr = Manager::new(generate());
    let peer = generate();
    let now = Instant::now();
    let _ = mgr.send(peer, b"one", 1, now, &bind_a);
    // The second send finds the attempt, and binds nothing.
    assert!(would_block(mgr.send(peer, b"two", 2, now, &bind_fails)));
    assert_eq!(mgr.take_signaling().len(), 1);
}

#[test]
fn answers_are_checked() {
    let mut mgr = Manager::new(generate());
    let peer = generate();
    let now = Instant::now();
    assert_eq!(
        mgr.handle_answer(peer, 0, MINIMAL_SDP),
        Err(PeerError::NoConnectionForAnswer)
    );
    let _ = mgr.send(peer, b"x", 0, now, &bind_a);
    assert_eq!(
        mgr.handle_answer(peer, 1, MINIMAL_SDP),
        Err(PeerError::SessionMismatch)
    );
    assert!(matches!(
        mgr.handle_answer(peer, 0, "not sdp"),
        Err(PeerError::InvalidAnswer(_))
    ));
    // The offer is spent.
    assert_eq!(
        mgr.handle_answer(peer, 0, MINIMAL_SDP),
        Err(PeerError::NoPendingOffer)
    );

    let other = generate();
    let _ = mgr.send(other, b"x", 0, now, &bind_a);
    assert!(matches!(
        mgr.handle_answer(other, 1, MINIMAL_SDP),
        Err(PeerError::AnswerRefused(_))
    ));
    assert_eq!(
        mgr.handle_answer(other, 1, MINIMAL_SDP),
        Err(PeerError::NoPendingOffer)
    );
}

#[test]
fn candidates_are_checked() {
    let mut mgr = Manager::new(generate());
    let peer = generate();
    let candidate = "candidate:1 1 udp 2130706175 10.0.0.1 5000 typ host";
    assert_eq!(
        mgr.handle_ice_candidate(peer, 0, candidate, None),
        Err(PeerError::NoConnectionForCandidate)
    );
    let _ = mgr.send(peer, b"x", 0, Instant::now(), &bind_a);
    assert_eq!(
        mgr.handle_ice_candidate(peer, 1, candidate, None),
        Err(PeerError::SessionMismatch)
    );
    assert!(matches!(
        mgr.handle_ice_candidate(peer, 0, "no candidate", None),
        Err(PeerError::InvalidCandidate(_))
    ));
    assert_eq!(mgr.handle_ice_candidate(peer, 0, candidate, None), Ok(()));
}

#[test]
fn close_names_its_session() {
    let mut mgr = Manager::new(generate());
    let peer = generate();
    let _ = mgr.send(peer, b"x", 0, Instant::now(), &bind_a);
    mgr.handle_close(peer, 1);
    assert_eq!(
        mgr.connection_state(&peer),
        Some(ConnectionState::Connecting)
    );
    mgr.handle_close(peer, 0);
    assert_eq!(mgr.connection_state(&peer), None);
    mgr.handle_close(peer, 0);
    assert_eq!(mgr.connection_state(&peer), None);
}

#[test]
fn disconnect_closes_and_wakes_and_the_next_send_reconnects() {
    let mut mgr = Manager::new(generate());
    let peer = generate();
    let now = Instant::now();
    let _ = mgr.send(peer, b"x", 3, now, &bind_a);
    mgr.handle_event(peer, RtcEvent::Ice(IceState::Disconnected));
    assert_eq!(mgr.connection_state(&peer), Some(ConnectionState::Closed));
    assert_eq!(mgr.take_woken(), vec![3]);
    assert!(would_block(mgr.send(peer, b"y", 4, now, &bind_b)));
    assert_eq!(
        mgr.connection_state(&peer),
        Some(ConnectionState::Connecting)
    );
    assert_eq!(mgr.socket(&peer), Some(&2));
    let sessions: Vec<u64> = mgr
        .take_signaling()
        .iter()
        .map(|envelope| match envelope.msg {
            SignalingMsg::Offer { session_id, .. } => session_id,
            _ => panic!("expected offers"),
        })
        .collect();
    assert_eq!(sessions, vec![0, 1]);
}

#[test]
fn events_of_unknown_peers_change_nothing_but_deliver_data() {
    let mut mgr = Manager::new(generate());
    let peer = generate();
    mgr.handle_event(peer, RtcEvent::Ice(IceState::Disconnected));
    mgr.handle_event(peer, RtcEvent::Other);
    assert!(mgr.peer_ids().is_empty());
    mgr.handle_event(peer, RtcEvent::ChannelData(vec![1, 2]));
    let datagrams = mgr.take_datagrams();
    assert_eq!(datagrams.len(), 1);
    assert_eq!(datagrams[0].0, peer);
    assert_eq!(&datagrams[0].1[..], &[1, 2]);
}

#[test]
fn only_a_disconnect_ends_a_connection() {
    let mut mgr = Manager::new(generate());
    let peer = generate();
    let _ = mgr.send(peer, b"x", 3, Instant::now(), &bind_a);
    for state in [
        IceState::New,
        IceState::Checking,
        IceState::Connected,
        IceState::Completed,
    ] {
        mgr.handle_event(peer, RtcEvent::Ice(state));
        assert_eq!(
            mgr.connection_state(&peer),
            Some(ConnectionState::Connecting)
        );
        assert!(mgr.take_woken().is_empty());
    }
    mgr.handle_event(peer, RtcEvent::Ice(IceState::Disconnected));
    assert_eq!(mgr.connection_state(&peer), Some(ConnectionState::Closed));
}

#[test]
fn media_sections_are_found_at_the_start_of_lines() {
    assert!(is_data_only(MINIMAL_SDP));
    assert!(is_data_only(""));
    assert!(is_data_only("v=0\r\nm=application 9 UDP/DTLS/SCTP webrtc-datachannel\r\n"));
    assert!(is_data_only("a=note:m=audio\r\n"));
    assert!(!is_data_only(MEDIA_SDP));
    assert!(!is_data_only("m=audio 9 UDP/TLS/RTP/SAVPF 111"));
    assert!(!is_data_only("v=0\nm=video 9 UDP/TLS/RTP/SAVPF 96\n"));
}

#[test]
fn media_offers_reach_no_session() {
    let mut mgr = Manager::new(generate());
    let peer = generate();
    let result = mgr.handle_offer(peer, 1, MEDIA_SDP, Instant::now(), &bind_a);
    assert_eq!(result, Err(ConnectError::Peer(PeerError::MediaOffered)));
    assert_eq!(mgr.connection_state(&peer), None);
    assert!(mgr.take_signaling().is_empty());
}

#[test]
fn offers_are_handed_to_a_session_of_their_own() {
    let mut mgr = Manager::new(generate());
    let peer = generate();
    let now = Instant::now();
    let _ = mgr.send(peer, b"x", 0, now, &bind_a);
    let offer = match mgr.take_signaling().pop().expect("an offer").msg {
        SignalingMsg::Offer { sdp, .. } => sdp,
        other => panic!("expected Offer, got {other:?}"),
    };
    let (_, outcome) = answer_offer(now, &ADDR_B, &offer).expect("a session");
    let answer = outcome.expect("an answer");
    assert!(answer.contains("m=application"));
    assert!(answer.contains("a=candidate"));
    let (_, outcome) = answer_offer(now, &ADDR_B, MINIMAL_SDP).expect("a session");
    assert!(outcome.is_err());
    assert!(matches!(
        answer_offer(now, &ADDR_B, "not sdp"),
        Err(PeerError::InvalidOffer(_))
    ));
    assert!(matches!(
        answer_offer(now, &ADDR_B, MEDIA_SDP),
        Err(PeerError::MediaOffered)
    ));
}

#[test]
fn session_ids_count_up_from_zero() {
    let mut mgr = Manager::new(generate());
    for expected in 0..3u64 {
        assert_eq!(mgr.next_session_id(), expected);
    }
    let _ = mgr.send(generate(), b"x", 0, Instant::now(), &bind_a);
    assert!(matches!(
        mgr.take_signaling()[0].msg,
        SignalingMsg::Offer { session_id: 3, .. }
    ));
    assert_eq!(mgr.next_session_id(), 4);
}

#[test]
fn major_network_change_tears_every_peer_down() {
    let mut mgr = Manager::new(generate());
    let (peer, other) = (generate(), generate());
    let now = Instant::now();
    let _ = mgr.send(peer, b"x", 5, now, &bind_a);
    let _ = mgr.send(other, b"x", 6, now, &bind_a);
    mgr.on_network_change(false);
    assert_eq!(mgr.peer_ids().len(), 2);
    assert!(mgr.take_woken().is_empty());
    mgr.on_network_change(true);
    assert!(mgr.peer_ids().is_empty());
    // Both senders try again.
    let mut woken = mgr.take_woken();
    woken.sort_unstable();
    assert_eq!(woken, vec![5, 6]);
    let _ = mgr.send(peer, b"x", 0, now, &bind_a);
    let offers = mgr.take_signaling();
    assert!(matches!(
        offers[2].msg,
        SignalingMsg::Offer { session_id: 2, .. }
    ));
}

#[test]
fn packets_of_unknown_peers_are_ignored() {
    let mut mgr = Manager::new(generate());
    let packet = Packet {
        peer: generate(),
        source: ADDR_B,
        local: ADDR_A,
        data: vec![1, 2, 3],
    };
    mgr.poll(Instant::now(), &vec![packet]);
    assert!(mgr.peer_ids().is_empty());
}

#[test]
fn outcomes_become_results() {
    assert_eq!(conclude_answer(Ok(())), Ok(()));
    assert_eq!(
        conclude_answer(Err("why".to_string())),
        Err(PeerError::AnswerRefused("why".to_string()))
    );
    assert_eq!(conclude_write(WriteOutcome::Accepted(true)), Ok(()));
    assert_eq!(conclude_write(WriteOutcome::Accepted(false)), Ok(()));
    assert_eq!(
        conclude_write(WriteOutcome::Missing),
        Err(PeerError::ChannelNotFound)
    );
    assert_eq!(
        conclude_write(WriteOutcome::Failed("why".to_string())),
        Err(PeerError::WriteFailed("why".to_string()))
    );
}

#[test]
fn errors_are_put_into_words() {
    let detail = "why".to_string();
    let texts = [
        (PeerError::WouldBlock, "operation would block"),
        (
            PeerError::NoConnectionForAnswer,
            "no pending connection for answer",
        ),
        (
            PeerError::NoConnectionForCandidate,
            "no connection for ICE candidate",
        ),
        (PeerError::SessionMismatch, "session_id mismatch"),
        (PeerError::NoPendingOffer, "no pending offer for answer"),
        (
            PeerError::InvalidOffer(detail.clone()),
            "invalid SDP offer: why",
        ),
        (PeerError::MediaOffered, "offer is for media"),
        (
            PeerError::OfferRefused(detail.clone()),
            "failed to accept offer: why",
        ),
        (
            PeerError::InvalidAnswer(detail.clone()),
            "invalid SDP answer: why",
        ),
        (
            PeerError::AnswerRefused(detail.clone()),
            "failed to accept answer: why",
        ),
        (
            PeerError::InvalidCandidate(detail.clone()),
            "invalid ICE candidate: why",
        ),
        (PeerError::NoDataChannel, "connected but no DataChannel"),
        (PeerError::ChannelNotFound, "DataChannel not found"),
        (
            PeerError::WriteFailed(detail),
            "DataChannel write failed: why",
        ),
    ];
    for (error, text) in texts {
        assert_eq!(error.message(), text);
    }
}
