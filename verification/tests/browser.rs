//! Peer connections in the browser, with stand-ins for its objects.

use bytes::Bytes;
use iroh_webrtc::addr::{to_custom_addr, AddrError, CustomAddr, EndpointId, SecretKey};
use iroh_webrtc::config::WebRtcConfig;
use iroh_webrtc::peer_connection::browser::{
    local_candidate, CandidateBuffer, EventPoll, PeerConnectionManager, PeerEvent,
};
use iroh_webrtc::peer_connection::error::{ConnectError, PeerError};
use iroh_webrtc::peer_connection::negotiation::{Action, Negotiation, Outcome};
use iroh_webrtc::signaling::{SignalingEnvelope, SignalingMsg};
use iroh_webrtc::transport::browser::poll_send;
use iroh_webrtc::transport::send::{QueuedPolicy, SendError, SendPoll};

/// A peer connection is known by its session, a data channel by a name.
type Manager = PeerConnectionManager<u64, &'static str, u32>;

fn id(seed: u8) -> EndpointId {
    SecretKey::from_bytes(&[seed; 32]).public()
}

fn ordered() -> (EndpointId, EndpointId) {
    let (a, b) = (id(1), id(2));
    if a.less_than(&b) {
        (a, b)
    } else {
        (b, a)
    }
}

fn manager() -> Manager {
    Manager::new(id(1), WebRtcConfig::default())
}

fn create(_: EndpointId, session_id: u64) -> Result<(u64, &'static str), String> {
    Ok((session_id, "own"))
}

fn create_fails(_: EndpointId, _: u64) -> Result<(u64, &'static str), String> {
    Err("no connection".to_string())
}

fn would_block(result: Result<(), ConnectError<String>>) -> bool {
    result == Err(ConnectError::Peer(PeerError::WouldBlock))
}

fn poll(mgr: &mut Manager, peer: EndpointId, event: PeerEvent) -> bool {
    mgr.poll_step(&peer, EventPoll::Event(event), &mut None)
}

fn outbox(mgr: &mut Manager, peer: EndpointId) -> Vec<Vec<u8>> {
    mgr.take_outbox(&peer).iter().map(|b| b.to_vec()).collect()
}

#[test]
fn queue_goes_out_when_the_channel_opens() {
    let mut mgr = manager();
    let peer = id(2);
    assert!(would_block(mgr.send(peer, b"one", 1, &create)));
    assert!(would_block(mgr.send(peer, b"two", 2, &create)));
    assert_eq!(mgr.peer(&peer), Some((&0, Some(&"own"))));
    assert!(outbox(&mut mgr, peer).is_empty());
    assert!(poll(&mut mgr, peer, PeerEvent::DataChannelOpen));
    assert_eq!(outbox(&mut mgr, peer), vec![b"one".to_vec(), b"two".to_vec()]);
    assert_eq!(mgr.take_woken(), vec![2]);
    assert_eq!(mgr.send(peer, b"three", 3, &create), Ok(()));
    assert_eq!(outbox(&mut mgr, peer), vec![b"three".to_vec()]);
    assert!(outbox(&mut mgr, peer).is_empty());
}

#[test]
fn answering_side_uses_the_channel_of_the_remote() {
    let mut mgr = manager();
    let peer = id(2);
    assert_eq!(mgr.handle_offer(peer, 9, &|| Ok::<_, String>(9)), Ok(()));
    assert_eq!(mgr.peer(&peer), Some((&9, None)));
    assert!(would_block(mgr.send(peer, b"one", 1, &create)));
    let mut remote = Some("remote");
    assert!(mgr.poll_step(
        &peer,
        EventPoll::Event(PeerEvent::DataChannelOpen),
        &mut remote
    ));
    assert_eq!(remote, None);
    assert_eq!(mgr.peer(&peer), Some((&9, Some(&"remote"))));
    assert_eq!(outbox(&mut mgr, peer), vec![b"one".to_vec()]);
}

#[test]
fn open_without_a_channel_sends_nothing() {
    let mut mgr = manager();
    let peer = id(2);
    let _ = mgr.handle_offer(peer, 9, &|| Ok::<_, String>(9));
    let _ = mgr.send(peer, b"one", 1, &create);
    poll(&mut mgr, peer, PeerEvent::DataChannelOpen);
    assert!(outbox(&mut mgr, peer).is_empty());
    assert_eq!(
        mgr.send(peer, b"two", 1, &create),
        Err(ConnectError::Peer(PeerError::NoDataChannel))
    );
}

#[test]
fn own_channel_is_preferred() {
    let mut mgr = manager();
    let peer = id(2);
    let _ = mgr.send(peer, b"one", 1, &create);
    let mut remote = Some("remote");
    mgr.poll_step(
        &peer,
        EventPoll::Event(PeerEvent::DataChannelOpen),
        &mut remote,
    );
    assert_eq!(remote, Some("remote"));
    assert_eq!(mgr.peer(&peer), Some((&0, Some(&"own"))));
}

#[test]
fn lost_connections_are_set_up_anew() {
    let lost = [
        EventPoll::Event(PeerEvent::DataChannelClose),
        EventPoll::Event(PeerEvent::IceConnectionStateChange("failed".to_string())),
        EventPoll::Event(PeerEvent::IceConnectionStateChange("Failed".to_string())),
        EventPoll::Event(PeerEvent::IceConnectionStateChange(
            "Disconnected".to_string(),
        )),
        EventPoll::Event(PeerEvent::IceConnectionStateChange(
            "is disconnected now".to_string(),
        )),
        EventPoll::Ended,
    ];
    for event in lost {
        let mut mgr = manager();
        let peer = id(2);
        let _ = mgr.send(peer, b"one", 1, &create);
        let ended = matches!(event, EventPoll::Ended);
        assert_eq!(mgr.poll_step(&peer, event, &mut None), !ended);
        assert!(would_block(mgr.send(peer, b"two", 1, &create)));
        // The second session.
        assert_eq!(mgr.peer(&peer), Some((&1, Some(&"own"))));
    }
}

#[test]
fn other_events_leave_the_connection_alone() {
    let mut mgr = manager();
    let peer = id(2);
    let _ = mgr.send(peer, b"one", 1, &create);
    for state in ["new", "checking", "connected", "completed", "New", "Checking"] {
        let event = PeerEvent::IceConnectionStateChange(state.to_string());
        assert!(poll(&mut mgr, peer, event));
    }
    assert!(poll(&mut mgr, peer, PeerEvent::IceGatheringComplete));
    let candidate = PeerEvent::IceCandidate {
        candidate: "c".to_string(),
        sdp_mid: None,
    };
    assert!(poll(&mut mgr, peer, candidate));
    assert!(!mgr.poll_step(&peer, EventPoll::Idle, &mut None));
    let _ = mgr.send(peer, b"two", 1, &create);
    assert_eq!(mgr.peer(&peer), Some((&0, Some(&"own"))));
}

#[test]
fn browser_peers_do_not_disturb_each_other() {
    let mut mgr = manager();
    let (peer, other) = (id(2), id(3));
    let _ = mgr.send(peer, b"one", 1, &create);
    let _ = mgr.send(other, b"two", 2, &create);
    poll(&mut mgr, other, PeerEvent::DataChannelOpen);
    mgr.handle_close(&other, 1);
    assert_eq!(mgr.peer_ids(), vec![peer]);
    poll(&mut mgr, peer, PeerEvent::DataChannelOpen);
    assert_eq!(outbox(&mut mgr, peer), vec![b"one".to_vec()]);
}

#[test]
fn messages_are_delivered() {
    let mut mgr = manager();
    let peer = id(2);
    let _ = mgr.send(peer, b"one", 1, &create);
    poll(
        &mut mgr,
        peer,
        PeerEvent::DataChannelMessage(Bytes::from_static(b"hi")),
    );
    let datagrams = mgr.take_datagrams();
    assert_eq!(datagrams.len(), 1);
    assert_eq!(datagrams[0].0, peer);
    assert_eq!(&datagrams[0].1[..], b"hi");
}

#[test]
fn glare_is_resolved_by_the_keys() {
    let (low, high) = ordered();
    let mut polite = Manager::new(low, WebRtcConfig::default());
    let mut impolite = Manager::new(high, WebRtcConfig::default());
    let _ = polite.send(high, b"x", 0, &create);
    let _ = impolite.send(low, b"x", 0, &create);

    assert_eq!(polite.handle_offer(high, 50, &|| Ok::<_, String>(50)), Ok(()));
    assert_eq!(polite.peer(&high), Some((&50, None)));

    let created = || panic!("no connection is created for an offer that is ignored");
    let result: Result<(), String> = impolite.handle_offer(low, 51, &created);
    assert_eq!(result, Ok(()));
    assert_eq!(impolite.peer(&low), Some((&0, Some(&"own"))));
}

#[test]
fn failures_to_create_a_connection_are_reported() {
    let (low, high) = ordered();
    let mut mgr = Manager::new(low, WebRtcConfig::default());
    assert_eq!(
        mgr.send(high, b"x", 0, &create_fails),
        Err(ConnectError::Bind("no connection".to_string()))
    );
    assert!(mgr.peer_ids().is_empty());
    let _ = mgr.send(high, b"x", 0, &create);
    assert_eq!(mgr.peer(&high), Some((&1, Some(&"own"))));
    let result = mgr.handle_offer(high, 3, &|| Err("no connection"));
    assert_eq!(result, Err("no connection"));
    assert!(mgr.peer(&high).is_none());
}

#[test]
fn signaling_names_its_session() {
    let mut mgr = manager();
    let peer = id(2);
    assert_eq!(
        mgr.handle_answer(&peer, 0),
        Err(PeerError::NoConnectionForAnswer)
    );
    assert_eq!(
        mgr.handle_ice_candidate(&peer, 0),
        Err(PeerError::NoConnectionForCandidate)
    );
    let _ = mgr.send(peer, b"x", 0, &create);
    assert_eq!(mgr.handle_answer(&peer, 0), Ok(&0));
    assert_eq!(mgr.handle_answer(&peer, 1), Err(PeerError::SessionMismatch));
    assert_eq!(mgr.handle_ice_candidate(&peer, 0), Ok(&0));
    assert_eq!(
        mgr.handle_ice_candidate(&peer, 1),
        Err(PeerError::SessionMismatch)
    );
    assert!(!mgr.handle_close(&peer, 1));
    assert_eq!(mgr.peer_ids(), vec![peer]);
    assert!(mgr.handle_close(&peer, 0));
    assert!(mgr.peer_ids().is_empty());
    assert_eq!(mgr.config().ice_servers.len(), 1);
}

#[test]
fn candidates_wait_for_the_remote_description() {
    let mut buffer = CandidateBuffer::new();
    assert_eq!(buffer.arrive("a", Some("0")), None);
    assert_eq!(buffer.arrive("b", None), None);
    assert_eq!(
        buffer.open(),
        vec![
            ("a".to_string(), Some("0".to_string())),
            ("b".to_string(), None)
        ]
    );
    assert_eq!(
        buffer.arrive("c", Some("1")),
        Some(("c".to_string(), Some("1".to_string())))
    );
    assert!(buffer.open().is_empty());
}

#[test]
fn local_candidates_are_sent_unless_empty() {
    let peer = id(2);
    assert_eq!(local_candidate(peer, 4, String::new(), None), None);
    assert_eq!(
        local_candidate(peer, 4, "c".to_string(), Some("0".to_string())),
        Some(SignalingEnvelope {
            peer,
            msg: SignalingMsg::IceCandidate {
                session_id: 4,
                candidate: "c".to_string(),
                sdp_mid: Some("0".to_string())
            }
        })
    );
}

#[test]
fn offer_is_created_set_and_sent() {
    let peer = id(2);
    let mut buffer = CandidateBuffer::new();
    let (mut offer, action) = Negotiation::offer(peer, 4);
    assert!(matches!(action, Action::Create));
    match offer.step(&mut buffer, Outcome::Created("sdp".to_string())) {
        Action::SetLocal(sdp) => assert_eq!(sdp, "sdp"),
        _ => panic!("expected the local description"),
    }
    match offer.step(&mut buffer, Outcome::Done) {
        Action::Send(envelope) => assert_eq!(
            envelope,
            SignalingEnvelope {
                peer,
                msg: SignalingMsg::Offer {
                    session_id: 4,
                    sdp: "sdp".to_string()
                }
            }
        ),
        _ => panic!("expected the offer"),
    }
    assert!(matches!(
        offer.step(&mut buffer, Outcome::Done),
        Action::Stop
    ));
}

#[test]
fn answer_adds_candidates_before_it_is_created() {
    let peer = id(2);
    let mut buffer = CandidateBuffer::new();
    buffer.arrive("a", None);
    buffer.arrive("b", Some("0"));
    let (mut answer, action) = Negotiation::answer(peer, 4, "offer");
    match action {
        Action::SetRemote(sdp) => assert_eq!(sdp, "offer"),
        _ => panic!("expected the remote description"),
    }
    match answer.step(&mut buffer, Outcome::Done) {
        Action::AddCandidate(candidate, mid) => {
            assert_eq!((candidate.as_str(), mid), ("a", None));
        }
        _ => panic!("expected the first candidate"),
    }
    // A candidate that is refused is passed over.
    match answer.step(&mut buffer, Outcome::Failed) {
        Action::AddCandidate(candidate, mid) => {
            assert_eq!((candidate.as_str(), mid.as_deref()), ("b", Some("0")));
        }
        _ => panic!("expected the second candidate"),
    }
    assert!(matches!(
        answer.step(&mut buffer, Outcome::Done),
        Action::Create
    ));
    assert!(matches!(
        answer.step(&mut buffer, Outcome::Created("answer".to_string())),
        Action::SetLocal(_)
    ));
    match answer.step(&mut buffer, Outcome::Done) {
        Action::Send(envelope) => assert_eq!(
            envelope.msg,
            SignalingMsg::Answer {
                session_id: 4,
                sdp: "answer".to_string()
            }
        ),
        _ => panic!("expected the answer"),
    }
}

#[test]
fn taking_an_answer_only_adds_candidates() {
    let mut buffer = CandidateBuffer::new();
    buffer.arrive("a", None);
    let (mut taken, action) = Negotiation::take_answer(id(2), 4, "answer");
    assert!(matches!(action, Action::SetRemote(_)));
    assert!(matches!(
        taken.step(&mut buffer, Outcome::Done),
        Action::AddCandidate(_, _)
    ));
    assert!(matches!(
        taken.step(&mut buffer, Outcome::Done),
        Action::Stop
    ));
    assert!(buffer.arrive("b", None).is_some());
}

#[test]
fn failures_end_a_negotiation() {
    // Setting the remote description fails: candidates stay held back.
    let mut buffer = CandidateBuffer::new();
    let (mut answer, _) = Negotiation::answer(id(2), 4, "offer");
    assert!(matches!(
        answer.step(&mut buffer, Outcome::Failed),
        Action::Stop
    ));
    assert!(matches!(
        answer.step(&mut buffer, Outcome::Done),
        Action::Stop
    ));
    assert!(buffer.arrive("a", None).is_none());

    // Creating fails, or gives no text.
    let (mut offer, _) = Negotiation::offer(id(2), 4);
    assert!(matches!(
        offer.step(&mut buffer, Outcome::Failed),
        Action::Stop
    ));

    // Setting the local description fails.
    let (mut offer, _) = Negotiation::offer(id(2), 4);
    offer.step(&mut buffer, Outcome::Created("sdp".to_string()));
    assert!(matches!(
        offer.step(&mut buffer, Outcome::Failed),
        Action::Stop
    ));
}

#[test]
fn test_transmit_splits_segments() {
    let peer = id(9);
    let dst = to_custom_addr(peer);
    let mut mgr = manager();
    let _ = mgr.send(peer, b"x", 0, &create);
    poll(&mut mgr, peer, PeerEvent::DataChannelOpen);
    let _ = outbox(&mut mgr, peer);

    let sent = poll_send(&mut mgr, &dst, b"abcdefg", Some(3), &1, &create, QueuedPolicy::Wait);
    assert_eq!(sent, SendPoll::Ready);
    assert_eq!(outbox(&mut mgr, peer), [&b"abc"[..], b"def", b"g"]);

    let sent = poll_send(&mut mgr, &dst, b"abcdefg", None, &1, &create, QueuedPolicy::Wait);
    assert_eq!(sent, SendPoll::Ready);
    assert_eq!(outbox(&mut mgr, peer), [&b"abcdefg"[..]]);
}

#[test]
fn test_transmit_while_connecting() {
    let peer = id(9);
    let dst = to_custom_addr(peer);

    // The first segment is queued, and the transmit waits.
    let mut mgr = manager();
    let sent = poll_send(&mut mgr, &dst, b"abcd", Some(2), &7, &create, QueuedPolicy::Wait);
    assert_eq!(sent, SendPoll::Pending);
    poll(&mut mgr, peer, PeerEvent::DataChannelOpen);
    assert_eq!(outbox(&mut mgr, peer), [&b"ab"[..]]);
    assert_eq!(mgr.take_woken(), [7]);

    // Every segment is queued, and the transmit counts as sent.
    let mut mgr = manager();
    let sent = poll_send(&mut mgr, &dst, b"abcd", Some(2), &7, &create, QueuedPolicy::Accept);
    assert_eq!(sent, SendPoll::Ready);
    poll(&mut mgr, peer, PeerEvent::DataChannelOpen);
    assert_eq!(outbox(&mut mgr, peer), [&b"ab"[..], b"cd"]);
}

#[test]
fn test_transmit_failures() {
    let peer = id(9);
    let mut mgr = manager();
    let elsewhere = CustomAddr {
        id: 1,
        data: to_custom_addr(peer).data,
    };
    let sent = poll_send(&mut mgr, &elsewhere, b"ab", None, &7, &create, QueuedPolicy::Wait);
    assert_eq!(sent, SendPoll::Failed(SendError::Addr(AddrError::NotWebRtc)));
    assert!(mgr.peer_ids().is_empty());

    let dst = to_custom_addr(peer);
    let sent = poll_send(&mut mgr, &dst, b"ab", None, &7, &create_fails, QueuedPolicy::Wait);
    let refused = ConnectError::Bind("no connection".to_string());
    assert_eq!(sent, SendPoll::Failed(SendError::Connect(refused)));
}
