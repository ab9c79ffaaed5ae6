//! Signaling messages, in plain form and over relay datagrams.

use iroh_webrtc::signaling::{assemble, decode, encode, relay, SignalingMsg};

#[test]
fn mod_test_roundtrip_offer() {
    let msg = SignalingMsg::Offer {
        session_id: 42,
        sdp: "v=0\r\no=- 123 456 IN IP4 0.0.0.0\r\n".to_string(),
    };
    let encoded = encode(&msg);
    let decoded = decode(&encoded).expect("should decode");
    assert_eq!(msg, decoded);
}

#[test]
fn mod_test_roundtrip_answer() {
    let msg = SignalingMsg::Answer {
        session_id: 42,
        sdp: "v=0\r\no=- 789 012 IN IP4 0.0.0.0\r\n".to_string(),
    };
    let encoded = encode(&msg);
    let decoded = decode(&encoded).expect("should decode");
    assert_eq!(msg, decoded);
}

#[test]
fn mod_test_roundtrip_ice_candidate() {
    let msg = SignalingMsg::IceCandidate {
        session_id: 42,
        candidate: "candidate:1 1 UDP 2130706431 192.168.1.1 50000 typ host".to_string(),
        sdp_mid: Some("0".to_string()),
    };
    let encoded = encode(&msg);
    let decoded = decode(&encoded).expect("should decode");
    assert_eq!(msg, decoded);
}

#[test]
fn mod_test_roundtrip_close() {
    let msg = SignalingMsg::Close { session_id: 42 };
    let encoded = encode(&msg);
    let decoded = decode(&encoded).expect("should decode");
    assert_eq!(msg, decoded);
}

#[test]
fn test_decode_garbage() {
    assert!(decode(&[0xff, 0xff, 0xff, 0xff, 0xff]).is_none());
}

#[test]
fn signaling_test_roundtrip_offer() {
    let msg = SignalingMsg::Offer {
        session_id: 42,
        sdp: "v=0\r\no=- 123 456 IN IP4 0.0.0.0\r\n".to_string(),
    };
    let encoded = relay::encode(&msg);
    assert!(relay::is_signaling(&encoded));
    let decoded = relay::decode(&encoded).expect("should decode");
    assert_eq!(msg, decoded);
}

#[test]
fn signaling_test_roundtrip_answer() {
    let msg = SignalingMsg::Answer {
        session_id: 42,
        sdp: "v=0\r\no=- 789 012 IN IP4 0.0.0.0\r\n".to_string(),
    };
    let encoded = relay::encode(&msg);
    let decoded = relay::decode(&encoded).expect("should decode");
    assert_eq!(msg, decoded);
}

#[test]
fn signaling_test_roundtrip_ice_candidate() {
    let msg = SignalingMsg::IceCandidate {
        session_id: 42,
        candidate: "candidate:1 1 UDP 2130706431 192.168.1.1 50000 typ host".to_string(),
        sdp_mid: Some("0".to_string()),
    };
    let encoded = relay::encode(&msg);
    let decoded = relay::decode(&encoded).expect("should decode");
    assert_eq!(msg, decoded);
}

#[test]
fn signaling_test_roundtrip_close() {
    let msg = SignalingMsg::Close { session_id: 42 };
    let encoded = relay::encode(&msg);
    let decoded = relay::decode(&encoded).expect("should decode");
    assert_eq!(msg, decoded);
}

#[test]
fn test_non_signaling_data() {
    // Regular QUIC packets should not be detected as signaling
    let quic_data = [0x01, 0x02, 0x03, 0x04, 0x05];
    assert!(!relay::is_signaling(&quic_data));
    assert!(relay::decode(&quic_data).is_none());
}

#[test]
fn test_too_short() {
    assert!(!relay::is_signaling(&[0x57, 0x52]));
    assert!(relay::decode(&[0x57, 0x52]).is_none());
}

#[test]
fn test_magic_but_invalid_payload() {
    // Magic prefix but garbage after it
    let mut data = relay::SIGNALING_MAGIC.to_vec();
    data.extend_from_slice(&[0xFF, 0xFF, 0xFF]);
    assert!(relay::is_signaling(&data));
    assert!(relay::decode(&data).is_none());
}

#[test]
fn messages_have_their_wire_format() {
    // Variant, session, then the length of each text before the text.
    let offer = SignalingMsg::Offer {
        session_id: 300,
        sdp: "ab".to_string(),
    };
    assert_eq!(&encode(&offer)[..], &[0, 0xAC, 0x02, 2, b'a', b'b']);
    let answer = SignalingMsg::Answer {
        session_id: 1,
        sdp: String::new(),
    };
    assert_eq!(&encode(&answer)[..], &[1, 1, 0]);
    let candidate = SignalingMsg::IceCandidate {
        session_id: 2,
        candidate: "c".to_string(),
        sdp_mid: Some("0".to_string()),
    };
    assert_eq!(&encode(&candidate)[..], &[2, 2, 1, b'c', 1, 1, b'0']);
    let bare = SignalingMsg::IceCandidate {
        session_id: 2,
        candidate: "c".to_string(),
        sdp_mid: None,
    };
    assert_eq!(&encode(&bare)[..], &[2, 2, 1, b'c', 0]);
    let close = SignalingMsg::Close { session_id: 5 };
    assert_eq!(&encode(&close)[..], &[3, 5]);
    assert_eq!(&relay::encode(&close)[..], b"WRTC\x03\x05");
}

#[test]
fn unknown_variants_and_truncated_messages_are_refused() {
    assert!(decode(&[]).is_none());
    assert!(decode(&[4, 0]).is_none());
    assert!(decode(&[0, 1, 5, b'a']).is_none());
    assert!(decode(&[2, 1, 1, b'c']).is_none());
    assert!(decode(&[1, 1, 1, 0xFF]).is_none());
    // What follows a message is ignored.
    assert_eq!(
        decode(&[3, 5, 9, 9]),
        Some(SignalingMsg::Close { session_id: 5 })
    );
}

#[test]
fn messages_are_assembled_from_records() {
    assert_eq!(assemble(None, None, None), None);
    assert_eq!(
        assemble(Some((0, 7)), Some((0, 7, "o".to_string())), None),
        Some(SignalingMsg::Offer {
            session_id: 7,
            sdp: "o".to_string()
        })
    );
    assert_eq!(
        assemble(Some((1, 7)), Some((1, 7, "a".to_string())), None),
        Some(SignalingMsg::Answer {
            session_id: 7,
            sdp: "a".to_string()
        })
    );
    assert_eq!(assemble(Some((1, 7)), None, None), None);
    assert_eq!(
        assemble(Some((2, 7)), None, Some((2, 7, "c".to_string(), None))),
        Some(SignalingMsg::IceCandidate {
            session_id: 7,
            candidate: "c".to_string(),
            sdp_mid: None
        })
    );
    assert_eq!(
        assemble(Some((3, 7)), None, None),
        Some(SignalingMsg::Close { session_id: 7 })
    );
    assert_eq!(assemble(Some((4, 7)), None, None), None);
}

#[test]
fn messages_have_a_fixed_form() {
    let close = SignalingMsg::Close { session_id: 300 };
    assert_eq!(encode(&close)[..], [3, 0xac, 0x02]);
    let offer = SignalingMsg::Offer {
        session_id: 1,
        sdp: "h\u{e9}".to_string(),
    };
    assert_eq!(encode(&offer)[..], [0, 1, 3, 0x68, 0xc3, 0xa9]);
    let answer = SignalingMsg::Answer {
        session_id: u64::MAX,
        sdp: String::new(),
    };
    let mut bytes = vec![1];
    bytes.extend([0xff; 9]);
    bytes.extend([0x01, 0]);
    assert_eq!(encode(&answer)[..], bytes);
    let candidate = SignalingMsg::IceCandidate {
        session_id: 127,
        candidate: "c".to_string(),
        sdp_mid: Some("0".to_string()),
    };
    assert_eq!(encode(&candidate)[..], [2, 127, 1, 0x63, 1, 1, 0x30]);
    let without_mid = SignalingMsg::IceCandidate {
        session_id: 128,
        candidate: "c".to_string(),
        sdp_mid: None,
    };
    assert_eq!(encode(&without_mid)[..], [2, 0x80, 1, 1, 0x63, 0]);
}

#[test]
fn reading_follows_the_form() {
    // What follows a message is ignored, and a number may be longer than it has to be.
    let close = Some(SignalingMsg::Close { session_id: 5 });
    assert_eq!(decode(&[3, 5, 9, 9]), close);
    assert_eq!(decode(&[0x83, 0x00, 0x85, 0x80, 0x00]), close);
    // Too great a number, no number at all, no such variant.
    assert_eq!(decode(&[0x83, 0x80, 0x80, 0x80, 0x10, 5]), None);
    assert_eq!(decode(&[0x83, 0x80, 0x80, 0x80, 0x80, 0, 5]), None);
    assert_eq!(decode(&[3]), None);
    assert_eq!(decode(&[4, 5]), None);
    // A text that is cut short or not UTF-8, and an option that is neither.
    assert_eq!(decode(&[0, 1, 2, 0x68]), None);
    assert_eq!(decode(&[0, 1, 1, 0xff]), None);
    assert_eq!(decode(&[2, 1, 1, 0x63, 2]), None);
    assert_eq!(decode(&[2, 1, 1, 0x63]), None);
}
