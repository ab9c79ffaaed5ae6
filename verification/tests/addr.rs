//! Endpoint identities and WebRTC addresses.

use iroh_webrtc::addr::{
    is_valid_send_addr, parse_endpoint_id, to_custom_addr, AddrError, CustomAddr, EndpointId,
    SecretKey, WEBRTC_TRANSPORT_ID,
};

fn generate() -> SecretKey {
    SecretKey::from_bytes(&iroh_base::SecretKey::generate().to_bytes())
}

#[test]
fn addr_test_custom_addr_roundtrip() {
    let key = generate();
    let endpoint_id = key.public();

    let addr = to_custom_addr(endpoint_id);
    assert_eq!(addr.id, WEBRTC_TRANSPORT_ID);

    let parsed = parse_endpoint_id(&addr).unwrap();
    assert_eq!(parsed, endpoint_id);
}

#[test]
fn addr_test_parse_wrong_transport_id() {
    let addr = CustomAddr {
        id: 0x123456u64,
        data: [0u8; 32].to_vec(),
    };
    let err = parse_endpoint_id(&addr).unwrap_err();
    assert_eq!(err, AddrError::NotWebRtc);
}

#[test]
fn addr_test_parse_wrong_key_length() {
    let addr = CustomAddr {
        id: WEBRTC_TRANSPORT_ID,
        data: [0u8; 16].to_vec(),
    };
    let err = parse_endpoint_id(&addr).unwrap_err();
    assert_eq!(err, AddrError::WrongKeyLength);
}

#[test]
fn mod_test_custom_addr_roundtrip() {
    let key = generate();
    let endpoint_id = key.public();

    let addr = to_custom_addr(endpoint_id);
    assert_eq!(addr.id, WEBRTC_TRANSPORT_ID);
    assert_eq!(&addr.data[..], &endpoint_id.as_bytes()[..]);

    let parsed = parse_endpoint_id(&addr).unwrap();
    assert_eq!(parsed, endpoint_id);
}

#[test]
fn mod_test_parse_wrong_transport_id() {
    let addr = CustomAddr {
        id: 0x123456u64,
        data: [0u8; 32].to_vec(),
    };
    let err = parse_endpoint_id(&addr).unwrap_err();
    assert_eq!(err.message(), "not a WebRTC transport address");
}

#[test]
fn mod_test_parse_wrong_key_length() {
    // 16 bytes instead of 32
    let addr = CustomAddr {
        id: WEBRTC_TRANSPORT_ID,
        data: [0u8; 16].to_vec(),
    };
    let err = parse_endpoint_id(&addr).unwrap_err();
    assert_eq!(err.message(), "invalid WebRTC address: wrong key length");
}

#[test]
fn bad_public_key_is_refused() {
    // No point of the curve has y = 2.
    let mut data = [0u8; 32];
    data[0] = 2;
    let addr = CustomAddr {
        id: WEBRTC_TRANSPORT_ID,
        data: data.to_vec(),
    };
    let err = parse_endpoint_id(&addr).unwrap_err();
    assert_eq!(err, AddrError::BadPublicKey);
    assert_eq!(err.message(), "invalid WebRTC address: bad public key");
    assert!(EndpointId::from_bytes(&data).is_none());
}

#[test]
fn public_key_is_derived_from_the_secret() {
    let secret = [7u8; 32];
    let ours = SecretKey::from_bytes(&secret).public();
    let theirs = iroh_base::SecretKey::from_bytes(&secret).public();
    assert_eq!(ours.as_bytes(), theirs.as_bytes());
    assert_ne!(ours.as_bytes(), &secret);
    assert_eq!(EndpointId::from_bytes(ours.as_bytes()), Some(ours));
}

#[test]
fn transport_id_is_ascii_wrt() {
    assert_eq!(&WEBRTC_TRANSPORT_ID.to_be_bytes()[5..], b"WRT");
}

#[test]
fn send_addr_is_valid_by_transport_id_alone() {
    let addr = CustomAddr {
        id: WEBRTC_TRANSPORT_ID,
        data: Vec::new(),
    };
    assert!(is_valid_send_addr(&addr));
}

#[test]
fn identities_are_ordered_like_their_keys() {
    for _ in 0..20 {
        let a = generate().public();
        let b = generate().public();
        assert_eq!(a.less_than(&b), a.as_bytes() < b.as_bytes());
        assert_eq!(b.less_than(&a), b.as_bytes() < a.as_bytes());
        assert_ne!(a.less_than(&b), b.less_than(&a));
        assert!(!a.less_than(&a));
        assert!(a.same(&a));
        assert!(!a.same(&b));
    }
}
