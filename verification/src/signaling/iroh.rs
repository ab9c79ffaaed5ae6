//! Signaling over a dedicated stream between two endpoints.
//!
//! Each message travels as a frame: the length of the encoded message, then the
//! message.

use vstd::prelude::*;

use crate::addr::EndpointId;
use crate::signaling::{decode, decoded, encode_to_vec, encoded, SignalingEnvelope, SignalingMsg};

verus! {

/// Name of the signaling protocol in connection negotiation: ASCII for
/// "iroh-webrtc/signaling/0".
pub const SIGNALING_ALPN: [u8; 23] = [
    0x69, 0x72, 0x6f, 0x68, 0x2d, 0x77, 0x65, 0x62, 0x72, 0x74, 0x63,
    0x2f, 0x73, 0x69, 0x67, 0x6e, 0x61, 0x6c, 0x69, 0x6e, 0x67, 0x2f, 0x30,
];

/// Longest message that a frame carries. Longer ones are rejected, to contain
/// what a garbled or hostile peer can do.
pub const MAX_FRAME_BYTES: u32 = 65536;

/// The number that four bytes stand for, the most significant first.
pub open spec fn be32(bytes: Seq<u8>) -> int {
    bytes[0] * 0x1000000 + bytes[1] * 0x10000 + bytes[2] * 0x100 + bytes[3]
}

/// The four bytes of a number, the most significant first.
pub open spec fn be32_bytes(n: int) -> Seq<u8> {
    seq![
        (n / 0x1000000) as u8,
        (n / 0x10000 % 0x100) as u8,
        (n / 0x100 % 0x100) as u8,
        (n % 0x100) as u8,
    ]
}

/// The frame of a message body.
pub open spec fn frame(body: Seq<u8>) -> Seq<u8> {
    be32_bytes(body.len() as int) + body
}

/// The body of the first frame of a stream, and what follows it; `None` if the
/// stream ends before the frame does, or the frame is too long.
pub open spec fn next_frame(stream: Seq<u8>) -> Option<(Seq<u8>, Seq<u8>)> {
    if stream.len() < 4 {
        None
    } else {
        let len = be32(stream.take(4));
        if len > MAX_FRAME_BYTES || stream.len() < 4 + len {
            None
        } else {
            Some((stream.subrange(4, 4 + len), stream.skip(4 + len)))
        }
    }
}

/// The bodies of the frames of a stream, up to where it ends or holds a frame that
/// is too long.
pub open spec fn frame_bodies(stream: Seq<u8>) -> Seq<Seq<u8>>
    decreases stream.len(),
{
    match next_frame(stream) {
        Some((body, rest)) => if rest.len() < stream.len() {
            seq![body] + frame_bodies(rest)
        } else {
            Seq::empty()
        },
        None => Seq::empty(),
    }
}

/// The frames of some bodies, one after the other.
pub open spec fn frames(bodies: Seq<Seq<u8>>) -> Seq<u8>
    decreases bodies.len(),
{
    if bodies.len() == 0 {
        Seq::empty()
    } else {
        frame(bodies[0]) + frames(bodies.drop_first())
    }
}

/// A frame says where it ends: whatever follows it, its body is read back, and what
/// follows is left.
pub proof fn law_frame_round_trip(body: Seq<u8>, rest: Seq<u8>)
    requires
        body.len() <= MAX_FRAME_BYTES,
    ensures
        next_frame(frame(body) + rest) == Some((body, rest)),
{
    let stream = frame(body) + rest;
    let n = body.len() as int;
    assert(stream.take(4) =~= be32_bytes(n));
    assert(be32(be32_bytes(n)) == n);
    assert(stream.subrange(4, 4 + n) =~= body);
    assert(stream.skip(4 + n) =~= rest);
}

/// Whatever messages are framed and written to a stream, their bodies are read from
/// it in the same order.
pub proof fn law_stream_round_trip(bodies: Seq<Seq<u8>>)
    requires
        forall|i: int| 0 <= i < bodies.len() ==> (#[trigger] bodies[i]).len() <= MAX_FRAME_BYTES,
    ensures
        frame_bodies(frames(bodies)) == bodies,
    decreases bodies.len(),
{
    if bodies.len() == 0 {
        assert(frame_bodies(frames(bodies)) =~= bodies);
    } else {
        let rest = bodies.drop_first();
        assert forall|i: int| 0 <= i < rest.len() implies (#[trigger] rest[i]).len()
            <= MAX_FRAME_BYTES by {
            assert(rest[i] == bodies[i + 1]);
        }
        law_stream_round_trip(rest);
        law_frame_round_trip(bodies[0], frames(rest));
        assert(seq![bodies[0]] + rest =~= bodies);
    }
}

/// Frames a message; `None` if it is too long for a frame. Read from a stream, the
/// frame gives the message back, whatever follows it.
pub fn frame_message(msg: &SignalingMsg) -> (framed: Option<Vec<u8>>)
    ensures
        match framed {
            Some(framed) => {
                &&& encoded(msg@).len() <= MAX_FRAME_BYTES
                &&& framed@ == frame(encoded(msg@))
                &&& decoded(encoded(msg@)) == Some(msg@)
                &&& forall|rest: Seq<u8>| #[trigger]
                    next_frame(framed@ + rest) == Some((encoded(msg@), rest))
            },
            None => encoded(msg@).len() > MAX_FRAME_BYTES,
        },
{
    let body = encode_to_vec(msg);
    if body.len() > MAX_FRAME_BYTES as usize {
        return None;
    }
    let len = body.len();
    let mut framed: Vec<u8> = Vec::new();
    framed.push((len / 0x1000000) as u8);
    framed.push((len / 0x10000 % 0x100) as u8);
    framed.push((len / 0x100 % 0x100) as u8);
    framed.push((len % 0x100) as u8);
    framed.extend_from_slice(body.as_slice());
    proof {
        assert(framed@ =~= frame(body@));
        assert forall|rest: Seq<u8>| #[trigger]
            next_frame(framed@ + rest) == Some((body@, rest)) by {
            law_frame_round_trip(body@, rest);
        }
    }
    Some(framed)
}

/// The length of the message that follows the header of a frame; `None` if it is
/// too long, in which case the stream is given up.
pub fn frame_length(header: &[u8; 4]) -> (len: Option<u32>)
    ensures
        match len {
            Some(len) => len == be32(header@) && len <= MAX_FRAME_BYTES,
            None => be32(header@) > MAX_FRAME_BYTES,
        },
{
    let len: u64 = header[0] as u64 * 0x1000000 + header[1] as u64 * 0x10000 + header[2] as u64
        * 0x100 + header[3] as u64;
    if len > MAX_FRAME_BYTES as u64 {
        None
    } else {
        Some(len as u32)
    }
}

/// What is forwarded of the body of a frame from a peer; `None` if it holds no
/// message, in which case the frame is skipped.
pub fn open_frame(peer: EndpointId, body: &[u8]) -> (envelope: Option<SignalingEnvelope>)
    ensures
        match envelope {
            Some(envelope) => envelope.peer@ == peer@ && decoded(body@) == Some(envelope.msg@),
            None => decoded(body@) is None,
        },
{
    match decode(body) {
        Some(msg) => Some(SignalingEnvelope { peer, msg }),
        None => None,
    }
}

/// A frame is the length of its body in four bytes, the most significant first, and then
/// the body as it is.
pub proof fn law_frame_layout(body: Seq<u8>)
    requires
        body.len() <= 65536,
    ensures
        frame(body).len() == body.len() + 4,
        frame(body).skip(4) == body,
        frame(body)[0] * 0x1000000 + frame(body)[1] * 0x10000 + frame(body)[2] * 0x100 + frame(
            body,
        )[3] == body.len(),
{
    assert(frame(body).skip(4) =~= body);
}

/// A frame is read exactly if the stream holds its header and all of its body, and the
/// body is no longer than 65536 bytes.
pub proof fn law_frame_is_read_whole(stream: Seq<u8>)
    ensures
        next_frame(stream) is Some <==> {
            let len = stream[0] * 0x1000000 + stream[1] * 0x10000 + stream[2] * 0x100 + stream[3];
            stream.len() >= 4 && len <= 65536 && stream.len() >= 4 + len
        },
        next_frame(stream) matches Some((body, rest)) ==> {
            let len = stream[0] * 0x1000000 + stream[1] * 0x10000 + stream[2] * 0x100 + stream[3];
            &&& body.len() == len
            &&& stream == stream.take(4) + body + rest
        },
{
    if stream.len() >= 4 {
        let head = stream.take(4);
        assert(head[0] == stream[0] && head[1] == stream[1]);
        assert(head[2] == stream[2] && head[3] == stream[3]);
        if let Some((body, rest)) = next_frame(stream) {
            assert(stream =~= stream.take(4) + body + rest);
        }
    }
}

} // verus!
