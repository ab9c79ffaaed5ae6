//! Signaling over relay datagrams.
//!
//! Messages are tagged with a magic prefix, so that they can be told from the
//! QUIC datagrams in the same stream.

use bytes::Bytes;
use vstd::prelude::*;

use crate::payload::{buffer_contents, buffer_from_vec};
use crate::signaling::{
    decoded, encode_to_vec, encoded, law_decoding_ignores_rest, optional_msg, SignalingMsg,
    SignalingMsgView,
};

verus! {

/// Magic prefix of signaling messages: ASCII for "WRTC".
pub const SIGNALING_MAGIC: [u8; 4] = [0x57, 0x52, 0x54, 0x43];

/// The magic prefix.
pub open spec fn magic() -> Seq<u8> {
    seq![0x57u8, 0x52, 0x54, 0x43]
}

/// A datagram starts with the magic prefix.
pub open spec fn is_tagged(data: Seq<u8>) -> bool {
    data.len() >= 4 && data.take(4) == magic()
}

/// The message that a datagram carries.
pub open spec fn relay_decoded(data: Seq<u8>) -> Option<SignalingMsgView> {
    if is_tagged(data) {
        decoded(data.skip(4))
    } else {
        None
    }
}

/// Encodes a signaling message into a relay datagram: the magic prefix, then the
/// message. The datagram is recognised, and decodes to the message.
pub fn encode(msg: &SignalingMsg) -> (datagram: Bytes)
    ensures
        buffer_contents(datagram) == magic() + encoded(msg@),
        is_tagged(buffer_contents(datagram)),
        relay_decoded(buffer_contents(datagram)) == Some(msg@),
{
    let body = encode_to_vec(msg);
    let mut datagram: Vec<u8> = Vec::new();
    datagram.push(SIGNALING_MAGIC[0]);
    datagram.push(SIGNALING_MAGIC[1]);
    datagram.push(SIGNALING_MAGIC[2]);
    datagram.push(SIGNALING_MAGIC[3]);
    datagram.extend_from_slice(body.as_slice());
    proof {
        assert(datagram@ =~= magic() + body@);
        assert(datagram@.take(4) =~= magic());
        assert(datagram@.skip(4) =~= body@);
    }
    buffer_from_vec(datagram)
}

/// Whether a datagram starts with the magic prefix.
pub fn is_signaling(data: &[u8]) -> (found: bool)
    ensures
        found == is_tagged(data@),
{
    if data.len() < 4 {
        return false;
    }
    let found = data[0] == SIGNALING_MAGIC[0] && data[1] == SIGNALING_MAGIC[1] && data[2]
        == SIGNALING_MAGIC[2] && data[3] == SIGNALING_MAGIC[3];
    proof {
        let front = data@.take(4);
        if found {
            assert(front =~= magic());
        } else {
            assert(front[0] == data@[0] && front[1] == data@[1]);
            assert(front[2] == data@[2] && front[3] == data@[3]);
        }
    }
    found
}

/// Decodes a signaling message from a relay datagram.
///
/// `None` if the datagram does not start with the magic prefix, or carries no
/// message.
pub fn decode(data: &[u8]) -> (msg: Option<SignalingMsg>)
    ensures
        optional_msg(msg) == relay_decoded(data@),
{
    if !is_signaling(data) {
        return None;
    }
    let body = vstd::slice::slice_subrange(data, 4, data.len());
    assert(body@ =~= data@.skip(4));
    crate::signaling::decode(body)
}

/// Only tagged datagrams carry messages: a QUIC datagram is never taken for one.
pub proof fn law_untagged_is_no_signaling(data: Seq<u8>)
    requires
        !is_tagged(data),
    ensures
        relay_decoded(data) is None,
{
}

/// A datagram is signaling exactly if it begins with "WRTC"; the message is what follows.
pub proof fn law_tag_stands_first(data: Seq<u8>)
    ensures
        is_tagged(data) <==> data.len() >= 4 && data[0] == 0x57 && data[1] == 0x52 && data[2]
            == 0x54 && data[3] == 0x43,
        is_tagged(data) ==> relay_decoded(data) == decoded(data.skip(4)),
        !is_tagged(data) ==> relay_decoded(data) is None,
{
    if data.len() >= 4 {
        let front = data.take(4);
        if data[0] == 0x57 && data[1] == 0x52 && data[2] == 0x54 && data[3] == 0x43 {
            assert(front =~= magic());
        } else {
            assert(front[0] == data[0] && front[1] == data[1]);
            assert(front[2] == data[2] && front[3] == data[3]);
        }
    }
}

/// A datagram is signaling exactly if it begins with "WRTC", and what follows the prefix
/// is the message, whatever comes after that.
pub proof fn law_relay_message_follows_prefix(msg: SignalingMsgView, data: Seq<u8>, rest: Seq<u8>)
    requires
        encoded(msg).len() <= usize::MAX,
    ensures
        is_tagged(data) <==> data.len() >= 4 && data[0] == 0x57 && data[1] == 0x52 && data[2]
            == 0x54 && data[3] == 0x43,
        relay_decoded(seq![0x57u8, 0x52, 0x54, 0x43] + encoded(msg) + rest) == Some(msg),
        is_tagged(data) ==> relay_decoded(data) == decoded(data.skip(4)),
{
    law_tag_stands_first(data);
    let datagram = seq![0x57u8, 0x52, 0x54, 0x43] + encoded(msg) + rest;
    assert(datagram.take(4) =~= magic());
    assert(datagram.skip(4) =~= encoded(msg) + rest);
    law_decoding_ignores_rest(msg, rest);
}

} // verus!
