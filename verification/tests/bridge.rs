//! Signaling over streams: frames, and the connections that carry them.

use iroh_webrtc::addr::{EndpointId, SecretKey};
use iroh_webrtc::signaling::iroh::{
    frame_length, frame_message, open_frame, MAX_FRAME_BYTES, SIGNALING_ALPN,
};
use iroh_webrtc::signaling::registry::{AfterSend, Registration, Registry, TrySend};
use iroh_webrtc::signaling::{encode, SignalingMsg};

fn id(seed: u8) -> EndpointId {
    SecretKey::from_bytes(&[seed; 32]).public()
}

fn ordered() -> (EndpointId, EndpointId) {
    let (a, b) = (id(1), id(2));
    if a.less_than(&b) {
        (a, b)
    } else {
        (b, a)
    }
}

#[test]
fn alpn_names_the_protocol() {
    assert_eq!(&SIGNALING_ALPN[..], b"iroh-webrtc/signaling/0");
    assert_eq!(MAX_FRAME_BYTES, 64 * 1024);
}

#[test]
fn frame_is_length_and_message() {
    let msg = SignalingMsg::Close { session_id: 5 };
    assert_eq!(frame_message(&msg), Some(vec![0, 0, 0, 2, 3, 5]));
}

#[test]
fn frames_round_trip_over_a_stream() {
    let msgs = [
        SignalingMsg::Offer {
            session_id: 1,
            sdp: "x".repeat(1000),
        },
        SignalingMsg::Close { session_id: 2 },
        SignalingMsg::IceCandidate {
            session_id: 3,
            candidate: "candidate".to_string(),
            sdp_mid: None,
        },
    ];
    let mut stream = Vec::new();
    for msg in &msgs {
        stream.extend_from_slice(&frame_message(msg).unwrap());
    }

    let peer = id(9);
    let mut at = 0;
    let mut read = Vec::new();
    while at < stream.len() {
        let mut header = [0u8; 4];
        header.copy_from_slice(&stream[at..at + 4]);
        let len = frame_length(&header).unwrap() as usize;
        let envelope = open_frame(peer, &stream[at + 4..at + 4 + len]).unwrap();
        assert_eq!(envelope.peer, peer);
        read.push(envelope.msg);
        at += 4 + len;
    }
    assert_eq!(&read[..], &msgs[..]);
}

#[test]
fn oversize_messages_are_not_framed() {
    // One byte each for the variant and the session, three for the length.
    let fits = SignalingMsg::Offer {
        session_id: 1,
        sdp: "x".repeat(65536 - 5),
    };
    assert_eq!(encode(&fits).len(), 65536);
    assert_eq!(frame_message(&fits).unwrap().len(), 4 + 65536);
    let too_long = SignalingMsg::Offer {
        session_id: 1,
        sdp: "x".repeat(65536 - 4),
    };
    assert_eq!(frame_message(&too_long), None);
}

#[test]
fn oversize_headers_end_the_stream() {
    assert_eq!(frame_length(&[0, 1, 0, 0]), Some(65536));
    assert_eq!(frame_length(&[0, 1, 0, 1]), None);
    assert_eq!(frame_length(&[0xFF, 0xFF, 0xFF, 0xFF]), None);
    assert_eq!(frame_length(&[0, 0, 1, 2]), Some(258));
}

#[test]
fn frames_without_a_message_are_skipped() {
    assert!(open_frame(id(1), &[0xff, 0xff]).is_none());
}

#[test]
fn first_connection_is_kept() {
    let (low, high) = ordered();
    for outbound in [true, false] {
        let mut registry: Registry<u32> = Registry::new(low);
        assert!(registry.get(&high).is_none());
        assert!(matches!(
            registry.register(high, 1, outbound),
            Registration::Installed(None)
        ));
        assert_eq!(registry.get(&high), Some(&1));
    }
}

#[test]
fn both_sides_settle_on_the_connection_that_the_lower_key_dialed() {
    let (low, high) = ordered();
    const BY_LOW: u32 = 1;
    const BY_HIGH: u32 = 2;

    // The lower side keeps its own.
    let mut registry = Registry::new(low);
    registry.register(high, BY_LOW, true);
    assert!(matches!(
        registry.register(high, BY_HIGH, false),
        Registration::Duplicate(BY_HIGH)
    ));
    assert_eq!(registry.get(&high), Some(&BY_LOW));

    // The higher side accepts the other's connection.
    let mut registry = Registry::new(high);
    registry.register(low, BY_HIGH, true);
    assert!(matches!(
        registry.register(low, BY_LOW, false),
        Registration::Installed(Some(BY_HIGH))
    ));
    assert_eq!(registry.get(&low), Some(&BY_LOW));

    // Whichever came first.
    let mut registry = Registry::new(low);
    registry.register(high, BY_HIGH, false);
    assert!(matches!(
        registry.register(high, BY_LOW, true),
        Registration::Installed(Some(BY_HIGH))
    ));
    assert_eq!(registry.get(&high), Some(&BY_LOW));
    let mut registry = Registry::new(high);
    registry.register(low, BY_LOW, false);
    assert!(matches!(
        registry.register(low, BY_HIGH, true),
        Registration::Duplicate(BY_HIGH)
    ));
    assert_eq!(registry.get(&low), Some(&BY_LOW));
}

#[test]
fn another_connection_of_the_same_side_replaces() {
    let (low, high) = ordered();
    for (my_id, peer) in [(low, high), (high, low)] {
        for outbound in [true, false] {
            let mut registry = Registry::new(my_id);
            registry.register(peer, 1, outbound);
            assert!(matches!(
                registry.register(peer, 2, outbound),
                Registration::Installed(Some(1))
            ));
            assert_eq!(registry.get(&peer), Some(&2));
        }
    }
}

#[test]
fn outcome_of_a_send_decides_what_follows() {
    let (low, high) = ordered();
    let mut registry = Registry::new(low);
    registry.register(high, 1, true);
    assert_eq!(registry.after_try_send(&high, TrySend::Sent), AfterSend::Done);
    assert_eq!(
        registry.after_try_send(&high, TrySend::Full),
        AfterSend::Dropped
    );
    assert_eq!(registry.get(&high), Some(&1));
    assert_eq!(
        registry.after_try_send(&high, TrySend::Closed),
        AfterSend::Redial
    );
    assert!(registry.get(&high).is_none());
}

#[test]
fn eviction_hands_the_connection_out() {
    let (low, high) = ordered();
    let mut registry = Registry::new(low);
    registry.register(high, 1, true);
    assert_eq!(registry.evict(&high), Some(1));
    assert_eq!(registry.evict(&high), None);
}
