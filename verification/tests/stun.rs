//! STUN requests and responses.

use iroh_webrtc::net::SocketAddr;
use iroh_webrtc::peer_connection::stun::{
    build_binding_request, decode_mapped_address, decode_xor_mapped_address,
    parse_binding_response, MAPPED_ADDRESS, XOR_MAPPED_ADDRESS,
};

const MAGIC_COOKIE: [u8; 4] = [0x21, 0x12, 0xA4, 0x42];
const BINDING_SUCCESS_TYPE: [u8; 2] = [0x01, 0x01];

#[test]
fn test_binding_request_format() {
    let tid = [1, 2, 3, 4, 5, 6, 7, 8, 9, 10, 11, 12];
    let req = build_binding_request(&tid);

    assert_eq!(req.len(), 20);
    // Type: Binding Request
    assert_eq!(&req[0..2], &[0x00, 0x01]);
    // Length: 0
    assert_eq!(&req[2..4], &[0x00, 0x00]);
    // Magic cookie
    assert_eq!(&req[4..8], &MAGIC_COOKIE);
    // Transaction ID
    assert_eq!(&req[8..20], &tid);
}

#[test]
fn test_parse_binding_response_ipv4() {
    let tid = [0xAA; 12];

    // Build a response with XOR-MAPPED-ADDRESS for 198.51.100.5:12345
    let ip = [198, 51, 100, 5];
    let port: u16 = 12345;
    let xor_port = port ^ 0x2112;
    let xor_ip = [
        ip[0] ^ MAGIC_COOKIE[0],
        ip[1] ^ MAGIC_COOKIE[1],
        ip[2] ^ MAGIC_COOKIE[2],
        ip[3] ^ MAGIC_COOKIE[3],
    ];

    let mut response = Vec::new();
    // Header
    response.extend_from_slice(&BINDING_SUCCESS_TYPE);
    response.extend_from_slice(&[0x00, 0x0C]); // Message length = 12
    response.extend_from_slice(&MAGIC_COOKIE);
    response.extend_from_slice(&tid);
    // XOR-MAPPED-ADDRESS attribute
    response.extend_from_slice(&XOR_MAPPED_ADDRESS.to_be_bytes());
    response.extend_from_slice(&[0x00, 0x08]); // Attribute length = 8
    response.push(0x00); // Reserved
    response.push(0x01); // Family: IPv4
    response.extend_from_slice(&xor_port.to_be_bytes());
    response.extend_from_slice(&xor_ip);

    let addr = parse_binding_response(&response, &tid).unwrap();
    assert_eq!(addr, SocketAddr::V4 { octets: ip, port });
}

#[test]
fn test_parse_binding_response_ipv6() {
    let tid = [
        0x01, 0x02, 0x03, 0x04, 0x05, 0x06, 0x07, 0x08, 0x09, 0x0A, 0x0B, 0x0C,
    ];

    // 2001:db8::1
    let ip_bytes: [u8; 16] = [0x20, 0x01, 0x0d, 0xb8, 0, 0, 0, 0, 0, 0, 0, 0, 0, 0, 0, 1];
    let port: u16 = 54321;
    let xor_port = port ^ 0x2112;
    let mut xor_ip = [0u8; 16];
    for i in 0..4 {
        xor_ip[i] = ip_bytes[i] ^ MAGIC_COOKIE[i];
    }
    for i in 4..16 {
        xor_ip[i] = ip_bytes[i] ^ tid[i - 4];
    }

    let mut response = Vec::new();
    // Header
    response.extend_from_slice(&BINDING_SUCCESS_TYPE);
    response.extend_from_slice(&[0x00, 0x18]); // Message length = 24
    response.extend_from_slice(&MAGIC_COOKIE);
    response.extend_from_slice(&tid);
    // XOR-MAPPED-ADDRESS attribute
    response.extend_from_slice(&XOR_MAPPED_ADDRESS.to_be_bytes());
    response.extend_from_slice(&[0x00, 0x14]); // Attribute length = 20
    response.push(0x00); // Reserved
    response.push(0x02); // Family: IPv6
    response.extend_from_slice(&xor_port.to_be_bytes());
    response.extend_from_slice(&xor_ip);

    let addr = parse_binding_response(&response, &tid).unwrap();
    assert_eq!(
        addr,
        SocketAddr::V6 {
            octets: ip_bytes,
            port
        }
    );
}

#[test]
fn test_parse_wrong_transaction_id() {
    let tid = [0xAA; 12];
    let wrong_tid = [0xBB; 12];

    let mut response = Vec::new();
    response.extend_from_slice(&BINDING_SUCCESS_TYPE);
    response.extend_from_slice(&[0x00, 0x00]); // No attributes
    response.extend_from_slice(&MAGIC_COOKIE);
    response.extend_from_slice(&wrong_tid);

    assert!(parse_binding_response(&response, &tid).is_none());
}

#[test]
fn test_parse_not_a_stun_response() {
    let tid = [0xAA; 12];
    // Random non-STUN data
    assert!(parse_binding_response(&[0x01, 0x02, 0x03], &tid).is_none());
}

#[test]
fn test_parse_mapped_address_fallback() {
    let tid = [0xAA; 12];
    let ip = [203, 0, 113, 10];
    let port: u16 = 9999;

    let mut response = Vec::new();
    // Header
    response.extend_from_slice(&BINDING_SUCCESS_TYPE);
    response.extend_from_slice(&[0x00, 0x0C]); // Message length = 12
    response.extend_from_slice(&MAGIC_COOKIE);
    response.extend_from_slice(&tid);
    // MAPPED-ADDRESS attribute (non-XOR fallback)
    response.extend_from_slice(&MAPPED_ADDRESS.to_be_bytes());
    response.extend_from_slice(&[0x00, 0x08]); // Attribute length = 8
    response.push(0x00); // Reserved
    response.push(0x01); // Family: IPv4
    response.extend_from_slice(&port.to_be_bytes());
    response.extend_from_slice(&ip);

    let addr = parse_binding_response(&response, &tid).unwrap();
    assert_eq!(addr, SocketAddr::V4 { octets: ip, port });
}

/// An attribute with its padding.
fn attribute(kind: u16, value: &[u8]) -> Vec<u8> {
    let mut bytes = Vec::new();
    bytes.extend_from_slice(&kind.to_be_bytes());
    bytes.extend_from_slice(&(value.len() as u16).to_be_bytes());
    bytes.extend_from_slice(value);
    while bytes.len() % 4 != 0 {
        bytes.push(0);
    }
    bytes
}

fn response(tid: &[u8; 12], attributes: &[Vec<u8>]) -> Vec<u8> {
    let body: Vec<u8> = attributes.concat();
    let mut bytes = BINDING_SUCCESS_TYPE.to_vec();
    bytes.extend_from_slice(&(body.len() as u16).to_be_bytes());
    bytes.extend_from_slice(&MAGIC_COOKIE);
    bytes.extend_from_slice(tid);
    bytes.extend_from_slice(&body);
    bytes
}

fn mapped(last: u8) -> Vec<u8> {
    attribute(MAPPED_ADDRESS, &[0, 1, 0x12, 0x34, 10, 0, 0, last])
}

fn xor_mapped(last: u8) -> Vec<u8> {
    attribute(
        XOR_MAPPED_ADDRESS,
        &[
            0,
            1,
            0x12 ^ 0x21,
            0x34 ^ 0x12,
            10 ^ 0x21,
            0x12,
            0xA4,
            last ^ 0x42,
        ],
    )
}

#[test]
fn xor_mapped_is_preferred_wherever_it_stands() {
    let tid = [3; 12];
    let bytes = response(&tid, &[mapped(1), attribute(0x8022, b"server"), xor_mapped(2)]);
    assert_eq!(
        parse_binding_response(&bytes, &tid),
        Some(SocketAddr::V4 {
            octets: [10, 0, 0, 2],
            port: 0x1234
        })
    );
}

#[test]
fn first_mapped_address_counts() {
    let tid = [3; 12];
    let undecodable = attribute(MAPPED_ADDRESS, &[0, 9, 0, 0]);
    let bytes = response(&tid, &[undecodable, mapped(1), mapped(2)]);
    assert_eq!(
        parse_binding_response(&bytes, &tid),
        Some(SocketAddr::V4 {
            octets: [10, 0, 0, 1],
            port: 0x1234
        })
    );
}

#[test]
fn undecodable_xor_mapped_is_passed_over() {
    let tid = [3; 12];
    let undecodable = attribute(XOR_MAPPED_ADDRESS, &[0, 1, 0]);
    let bytes = response(&tid, &[undecodable, xor_mapped(7)]);
    assert_eq!(
        parse_binding_response(&bytes, &tid),
        Some(SocketAddr::V4 {
            octets: [10, 0, 0, 7],
            port: 0x1234
        })
    );
}

#[test]
fn truncated_responses_are_refused() {
    let tid = [3; 12];
    let mut bytes = response(&tid, &[xor_mapped(1)]);
    bytes.pop();
    assert_eq!(parse_binding_response(&bytes, &tid), None);

    // The attribute announces more than the message holds.
    let mut bytes = response(&tid, &[xor_mapped(1)]);
    bytes[23] = 9;
    assert_eq!(parse_binding_response(&bytes, &tid), None);

    // A request is no response.
    assert_eq!(
        parse_binding_response(&build_binding_request(&tid), &tid),
        None
    );

    // Another cookie.
    let mut bytes = response(&tid, &[xor_mapped(1)]);
    bytes[4] = 0;
    assert_eq!(parse_binding_response(&bytes, &tid), None);
}

#[test]
fn address_values_are_decoded() {
    let tid = [0; 12];
    assert_eq!(decode_mapped_address(&[0, 1, 0]), None);
    assert_eq!(decode_mapped_address(&[0, 1, 0, 80, 1, 2, 3]), None);
    assert_eq!(decode_mapped_address(&[0, 3, 0, 80, 1, 2, 3, 4]), None);
    assert_eq!(
        decode_mapped_address(&[0, 1, 0, 80, 1, 2, 3, 4]),
        Some(SocketAddr::V4 {
            octets: [1, 2, 3, 4],
            port: 80
        })
    );
    let mut v6 = vec![0, 2, 0, 80];
    v6.extend_from_slice(&[5; 16]);
    assert_eq!(
        decode_mapped_address(&v6),
        Some(SocketAddr::V6 {
            octets: [5; 16],
            port: 80
        })
    );
    assert_eq!(decode_xor_mapped_address(&v6[..19], &tid), None);
    assert_eq!(
        decode_xor_mapped_address(&[0, 1, 0x21, 0x12, 0x21, 0x12, 0xA4, 0x42], &tid),
        Some(SocketAddr::V4 {
            octets: [0, 0, 0, 0],
            port: 0
        })
    );
}
