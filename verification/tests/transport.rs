//! The transport: binding, receiving and sending.

use std::cell::Cell;
use std::time::Instant;

use bytes::Bytes;
use iroh_webrtc::addr::{
    is_valid_send_addr, to_custom_addr, AddrError, CustomAddr, EndpointId, SecretKey,
    WEBRTC_TRANSPORT_ID,
};
use iroh_webrtc::config::WebRtcConfig;
use iroh_webrtc::handle::{WebRtc, SIGNALING_CHANNEL_CAP};
use iroh_webrtc::net::SocketAddr;
use iroh_webrtc::peer_connection::error::{ConnectError, PeerError};
use iroh_webrtc::peer_connection::native::PeerConnectionManager;
use iroh_webrtc::peer_connection::ConnectionState;
use iroh_webrtc::signaling::{SignalingEnvelope, SignalingMsg};
use iroh_webrtc::transport::recv::{RecvEvent, RecvOutcome, RecvPoll, RecvStep};
use iroh_webrtc::transport::send::{poll_send, QueuedPolicy, SendError, SendPoll};
use iroh_webrtc::transport::{
    Control, WebRtcEndpoint, WebRtcTransport, CONTROL_CHANNEL_CAP, DATAGRAM_CHANNEL_CAP,
};

type Manager = PeerConnectionManager<u16, u32>;

fn key(seed: u8) -> SecretKey {
    SecretKey::from_bytes(&[seed; 32])
}

fn id(seed: u8) -> EndpointId {
    key(seed).public()
}

fn bind() -> Result<(u16, SocketAddr), String> {
    Ok((
        1,
        SocketAddr::V4 {
            octets: [127, 0, 0, 1],
            port: 5000,
        },
    ))
}

fn check_sender_validates_transport_id() {
    // Valid WebRTC address
    let valid = to_custom_addr(id(1));
    assert!(is_valid_send_addr(&valid));

    // Wrong transport ID
    let invalid = CustomAddr {
        id: 0x999999u64,
        data: [0u8; 32].to_vec(),
    };
    assert!(!is_valid_send_addr(&invalid));
}

#[test]
fn transport_test_sender_validates_transport_id() {
    check_sender_validates_transport_id();
}

#[test]
fn mod_test_sender_validates_transport_id() {
    check_sender_validates_transport_id();
}

#[test]
fn test_bind_twice_fails() {
    let mut t = WebRtcTransport::new(key(1), WebRtcConfig::default(), "channels");
    let first = t.bind::<u16, u32>();
    assert!(first.is_ok());
    let second = t.bind::<u16, u32>();
    assert!(second.is_err());
}

#[test]
fn binding_hands_the_channels_over() {
    let mut t = WebRtcTransport::new(key(1), WebRtcConfig::default(), 17);
    let (endpoint, channels) = t.bind::<u16, u32>().ok().unwrap();
    assert_eq!(channels, 17);
    assert_eq!(endpoint.my_id, id(1));
    let addrs = endpoint.local_addrs();
    assert_eq!(addrs, vec![to_custom_addr(id(1))]);
    let error = t.bind::<u16, u32>().err().unwrap();
    assert_eq!(error.message(), "WebRtcTransport already bound");
    assert_eq!(t.config().ice_servers.len(), 1);
}

#[test]
fn network_changes_before_binding_are_ignored() {
    let mut t = WebRtcTransport::new(key(1), WebRtcConfig::default(), ());
    assert_eq!(t.on_network_change(true), None);
    let _ = t.bind::<u16, u32>();
    assert_eq!(
        t.on_network_change(true),
        Some(Control::NetworkChange { major: true })
    );
    assert_eq!(
        t.on_network_change(false),
        Some(Control::NetworkChange { major: false })
    );
}

#[test]
fn handle_gives_its_receiver_out_once() {
    let mut handle = WebRtc::new(key(1), WebRtcConfig::default(), 1u8, 2u8, 3u8);
    assert_eq!(*handle.to_transport_tx(), 2);
    assert_eq!(handle.take_outgoing_rx(), Some(3));
    assert_eq!(handle.take_outgoing_rx(), None);
    assert_eq!(handle.on_network_change(true), None);
    let (_, channels) = handle.transport().bind::<u16, u32>().ok().unwrap();
    assert_eq!(channels, 1);
    assert_eq!(
        handle.on_network_change(true),
        Some(Control::NetworkChange { major: true })
    );
}

#[test]
fn channels_have_their_capacities() {
    assert_eq!(SIGNALING_CHANNEL_CAP, 64);
    assert_eq!(CONTROL_CHANNEL_CAP, 16);
    assert_eq!(DATAGRAM_CHANNEL_CAP, 512);
}

fn endpoint() -> WebRtcEndpoint<u16, u32> {
    WebRtcTransport::new(key(1), WebRtcConfig::default(), ()).bind_with_signaling()
}

#[test]
fn signaling_goes_to_the_manager() {
    let mut endpoint = endpoint();
    let peer = id(2);
    let now = Instant::now();
    let mut from = |msg| {
        endpoint.handle_signaling(&SignalingEnvelope { peer, msg }, now, &bind)
    };
    assert!(matches!(
        from(SignalingMsg::Offer {
            session_id: 1,
            sdp: "nonsense".to_string()
        }),
        Err(ConnectError::Peer(PeerError::InvalidOffer(_)))
    ));
    assert_eq!(
        from(SignalingMsg::Answer {
            session_id: 1,
            sdp: "nonsense".to_string()
        }),
        Err(ConnectError::Peer(PeerError::NoConnectionForAnswer))
    );
    assert_eq!(
        from(SignalingMsg::IceCandidate {
            session_id: 1,
            candidate: "nonsense".to_string(),
            sdp_mid: Some("0".to_string())
        }),
        Err(ConnectError::Peer(PeerError::NoConnectionForCandidate))
    );
    assert_eq!(from(SignalingMsg::Close { session_id: 1 }), Ok(()));

    let _ = endpoint.manager.send(peer, b"x", 0, now, &bind);
    let close = SignalingEnvelope {
        peer,
        msg: SignalingMsg::Close { session_id: 0 },
    };
    assert_eq!(endpoint.handle_signaling(&close, now, &bind), Ok(()));
    assert!(endpoint.manager.peer_ids().is_empty());
}

#[test]
fn signaling_is_processed_in_order() {
    let mut endpoint = endpoint();
    let (peer, now) = (id(2), Instant::now());
    let _ = endpoint.manager.send(peer, b"x", 0, now, &bind);
    let candidate = |session_id| SignalingEnvelope {
        peer,
        msg: SignalingMsg::IceCandidate {
            session_id,
            candidate: "candidate:1 1 udp 2130706175 10.0.0.1 5000 typ host".to_string(),
            sdp_mid: None,
        },
    };
    let close = SignalingEnvelope {
        peer,
        msg: SignalingMsg::Close { session_id: 0 },
    };
    let results = endpoint.process_signaling(
        &vec![candidate(1), candidate(0), close, candidate(0)],
        now,
        &bind,
    );
    assert_eq!(
        results,
        vec![
            Err(ConnectError::Peer(PeerError::SessionMismatch)),
            Ok(()),
            Ok(()),
            Err(ConnectError::Peer(PeerError::NoConnectionForCandidate)),
        ]
    );
}

#[test]
fn control_comes_after_signaling() {
    let mut endpoint = endpoint();
    let (peer, now) = (id(2), Instant::now());
    let mut other = Manager::new(peer);
    let _ = other.send(id(1), b"x", 0, now, &bind);
    let offer = SignalingEnvelope {
        peer,
        msg: other.take_signaling().remove(0).msg,
    };
    let results = endpoint.process_inbound(
        &vec![offer],
        &vec![
            Control::NetworkChange { major: true },
            Control::NetworkChange { major: false },
        ],
        now,
        &bind,
    );
    assert_eq!(results, vec![Ok(())]);
    // The answer was sent before the connection was torn down.
    assert_eq!(endpoint.manager.take_signaling().len(), 1);
    assert!(endpoint.manager.peer_ids().is_empty());
}

#[test]
fn control_goes_to_the_manager() {
    let mut endpoint = endpoint();
    let _ = endpoint.manager.send(id(2), b"x", 0, Instant::now(), &bind);
    endpoint.process_control(Control::NetworkChange { major: false });
    assert_eq!(endpoint.manager.peer_ids().len(), 1);
    endpoint.process_control(Control::NetworkChange { major: true });
    assert!(endpoint.manager.peer_ids().is_empty());
}

#[test]
fn receiving_without_buffers_is_over_at_once() {
    assert_eq!(RecvPoll::start(0).err(), Some(RecvOutcome::Ready(0)));
}

#[test]
fn datagrams_fill_the_buffers() {
    let mut poll = RecvPoll::start(2).ok().unwrap();
    let mut buf = [9u8; 4];
    assert_eq!(poll.next_slot(), Some(0));
    match poll.step(
        RecvEvent::Datagram(id(3), Bytes::from_static(&[1, 2])),
        &mut buf,
    ) {
        RecvStep::Filled(slot) => {
            assert_eq!(slot.len, 2);
            assert_eq!(slot.source, to_custom_addr(id(3)));
            assert_eq!(slot.source.id, WEBRTC_TRANSPORT_ID);
        }
        RecvStep::Done(_) => panic!("expected a filled buffer"),
    }
    assert_eq!(buf, [1, 2, 9, 9]);
    assert_eq!(poll.next_slot(), Some(1));
    assert!(matches!(
        poll.step(
            RecvEvent::Datagram(id(3), Bytes::from_static(&[4, 5, 6, 7])),
            &mut buf
        ),
        RecvStep::Filled(_)
    ));
    assert_eq!(buf, [4, 5, 6, 7]);
    assert_eq!(poll.next_slot(), None);
    assert_eq!(poll.finish(), RecvOutcome::Ready(2));
}

/// Polls a queue until the poll ends. Hands out the outcome and the lengths filled.
fn receive(queue: &mut Vec<Bytes>, bufs: &mut [[u8; 3]]) -> (RecvOutcome, Vec<usize>) {
    let mut poll = RecvPoll::start(bufs.len()).ok().unwrap();
    let mut lens = Vec::new();
    while let Some(slot) = poll.next_slot() {
        let event = if queue.is_empty() {
            RecvEvent::Idle
        } else {
            RecvEvent::Datagram(id(3), queue.remove(0))
        };
        match poll.step(event, &mut bufs[slot]) {
            RecvStep::Filled(filled) => lens.push(filled.len),
            RecvStep::Done(outcome) => return (outcome, lens),
        }
    }
    (poll.finish(), lens)
}

#[test]
fn poll_takes_as_many_datagrams_as_there_are_buffers() {
    let mut queue: Vec<Bytes> = [&[1u8][..], &[2, 2], &[3, 3, 3]]
        .into_iter()
        .map(Bytes::from_static)
        .collect();
    let mut bufs = [[0u8; 3]; 2];
    assert_eq!(
        receive(&mut queue, &mut bufs),
        (RecvOutcome::Ready(2), vec![1, 2])
    );
    assert_eq!(bufs, [[1, 0, 0], [2, 2, 0]]);
    assert_eq!(queue, vec![Bytes::from_static(&[3, 3, 3])]);
    assert_eq!(
        receive(&mut queue, &mut bufs),
        (RecvOutcome::Ready(1), vec![3])
    );
    assert_eq!(bufs, [[3, 3, 3], [2, 2, 0]]);
    assert_eq!(receive(&mut queue, &mut bufs), (RecvOutcome::Pending, vec![]));
}

#[test]
fn poll_drops_only_the_datagram_that_does_not_fit() {
    let mut queue: Vec<Bytes> = [&[1u8][..], &[2; 4], &[3]]
        .into_iter()
        .map(Bytes::from_static)
        .collect();
    let mut bufs = [[0u8; 3]; 3];
    assert_eq!(
        receive(&mut queue, &mut bufs),
        (RecvOutcome::Ready(1), vec![1])
    );
    assert_eq!(bufs, [[1, 0, 0], [0, 0, 0], [0, 0, 0]]);
    assert_eq!(queue, vec![Bytes::from_static(&[3])]);
}

#[test]
fn datagram_that_does_not_fit_ends_the_poll() {
    let mut poll = RecvPoll::start(2).ok().unwrap();
    let mut buf = [9u8; 2];
    let long = Bytes::from_static(&[1, 2, 3]);
    assert!(matches!(
        poll.step(RecvEvent::Datagram(id(3), long.clone()), &mut buf),
        RecvStep::Done(RecvOutcome::Pending)
    ));
    assert_eq!(buf, [9, 9]);

    poll.step(RecvEvent::Datagram(id(3), Bytes::new()), &mut buf);
    assert!(matches!(
        poll.step(RecvEvent::Datagram(id(3), long), &mut buf),
        RecvStep::Done(RecvOutcome::Ready(1))
    ));
}

#[test]
fn receiving_ends_when_nothing_is_there() {
    let mut poll = RecvPoll::start(2).ok().unwrap();
    let mut buf = [0u8; 2];
    assert!(matches!(
        poll.step(RecvEvent::Idle, &mut buf),
        RecvStep::Done(RecvOutcome::Pending)
    ));
    poll.step(
        RecvEvent::Datagram(id(3), Bytes::from_static(&[1])),
        &mut buf,
    );
    assert!(matches!(
        poll.step(RecvEvent::Idle, &mut buf),
        RecvStep::Done(RecvOutcome::Ready(1))
    ));
    // A closed queue is an error even after a datagram.
    assert!(matches!(
        poll.step(RecvEvent::Closed, &mut buf),
        RecvStep::Done(RecvOutcome::Closed)
    ));
    assert_eq!(RecvOutcome::closed_message(), "datagram channel closed");
}

#[test]
fn transmit_needs_a_webrtc_peer() {
    let mut manager = Manager::new(id(1));
    let dst = CustomAddr {
        id: 1,
        data: Vec::new(),
    };
    let outcome = poll_send(
        &mut manager,
        &dst,
        b"x",
        None,
        &0,
        Instant::now(),
        &bind,
        QueuedPolicy::Accept,
    );
    assert_eq!(
        outcome,
        SendPoll::Failed(SendError::Addr(AddrError::NotWebRtc))
    );
    assert!(manager.peer_ids().is_empty());
}

#[test]
fn queued_segments_count_as_sent() {
    let mut manager = Manager::new(id(1));
    let binds = Cell::new(0);
    let counting_bind = || {
        binds.set(binds.get() + 1);
        bind()
    };
    let outcome = poll_send(
        &mut manager,
        &to_custom_addr(id(2)),
        &[1, 2, 3, 4, 5],
        Some(2),
        &0,
        Instant::now(),
        &counting_bind,
        QueuedPolicy::Accept,
    );
    assert_eq!(outcome, SendPoll::Ready);
    // One connection for three segments.
    assert_eq!(binds.get(), 1);
    assert_eq!(
        manager.connection_state(&id(2)),
        Some(ConnectionState::Connecting)
    );
}

#[test]
fn queued_segment_may_make_the_transmit_wait() {
    let mut manager = Manager::new(id(1));
    let outcome = poll_send(
        &mut manager,
        &to_custom_addr(id(2)),
        &[1, 2, 3, 4, 5],
        Some(2),
        &0,
        Instant::now(),
        &bind,
        QueuedPolicy::Wait,
    );
    assert_eq!(outcome, SendPoll::Pending);
}

#[test]
fn failed_segment_fails_the_transmit() {
    let mut manager = Manager::new(id(1));
    let tries = Cell::new(0);
    let failing_bind = || {
        tries.set(tries.get() + 1);
        Err::<(u16, SocketAddr), _>("no socket".to_string())
    };
    let outcome = poll_send(
        &mut manager,
        &to_custom_addr(id(2)),
        &[1, 2, 3, 4, 5],
        Some(2),
        &0,
        Instant::now(),
        &failing_bind,
        QueuedPolicy::Accept,
    );
    assert_eq!(
        outcome,
        SendPoll::Failed(SendError::Connect(ConnectError::Bind(
            "no socket".to_string()
        )))
    );
    assert_eq!(tries.get(), 1);
}

#[test]
fn nothing_to_send_is_sent_at_once() {
    let mut manager = Manager::new(id(1));
    let outcome = poll_send(
        &mut manager,
        &to_custom_addr(id(2)),
        &[],
        Some(2),
        &0,
        Instant::now(),
        &bind,
        QueuedPolicy::Wait,
    );
    assert_eq!(outcome, SendPoll::Ready);
    assert!(manager.peer_ids().is_empty());
}
