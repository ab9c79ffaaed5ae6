# iroh-webrtc

A WebRTC DataChannel transport for iroh endpoints. QUIC datagrams travel over
unreliable, unordered data channels; QUIC sees to reliability and order.

WebRTC is an upgrade transport: the first QUIC handshake completes over a relay or a
direct IP path. Signaling then flows between the endpoints, a data channel is
negotiated, and the WebRTC path joins the connection.

## Layout

- `src/` is the library. It is verified with Verus, and does no I/O: whoever uses it
  hands in what arrived, and carries out what is handed back.
  - `addr`, `net`, `config`, `payload`, `table`, `text`: addresses and keys,
    configuration, and the data structures that the rest is built on.
  - `signaling`: messages and their encoding, frames on streams, datagrams through a
    relay, and the registry of signaling connections.
  - `peer_connection`: the managers of peer connections (`native` over `str0m`,
    `browser` over `RTCPeerConnection`), browser negotiation, STUN messages and
    diagnostics. `laws` states what holds across the operations of the native
    manager.
  - `transport` and `handle`: binding, sending and receiving.
- `app/` runs the library on sockets, channels, tasks and the browser's objects.
- `tests/` holds the tests of the library.

## What is trusted

Calls into other crates stand behind small functions marked
`#[verifier::external_body]`, whose contracts are believed:

- keys (`addr`): `iroh-base`
- byte buffers (`payload`): `bytes`
- message encoding (`signaling::codec`): `postcard`
- WebRTC sessions (`peer_connection::rtc`): `str0m`
