//! WebRTC signaling messages.
//!
//! A [`SignalingMsg`] carries SDP offers, answers and trickled ICE candidates
//! between two peers. A [`SignalingEnvelope`] pairs a message with the remote
//! peer that it comes from or goes to. Any channel can ferry the encoded
//! messages.

pub mod codec;
pub mod iroh;
pub mod promises;
pub mod registry;
pub mod relay;

use bytes::Bytes;
use vstd::prelude::*;
use vstd::utf8::encode_utf8;

use crate::addr::EndpointId;
use crate::payload::{buffer_contents, buffer_from_vec};
use crate::signaling::codec::{
    head_read, head_record, law_head_round_trip, law_pair_record_round_trip,
    law_text_record_round_trip, law_text_round_trip, optional_bytes, optional_text, pair_read,
    pair_record, pair_record_view, read_head, read_pair, read_text, text_bytes, text_read,
    text_record, text_record_view, varint, write_head, write_pair, write_text,
};

verus! {

/// Variant number of an offer.
pub const OFFER_TAG: u32 = 0;

/// Variant number of an answer.
pub const ANSWER_TAG: u32 = 1;

/// Variant number of an ICE candidate.
pub const ICE_CANDIDATE_TAG: u32 = 2;

/// Variant number of a close request.
pub const CLOSE_TAG: u32 = 3;

/// A signaling message exchanged between peers to set up a WebRTC connection.
#[allow(inconsistent_fields)]
#[derive(Debug, Clone, PartialEq, Eq)]
pub enum SignalingMsg {
    /// SDP offer from the initiating peer.
    Offer {
        /// Unique session identifier to correlate offer and answer.
        session_id: u64,
        /// The SDP offer.
        sdp: String,
    },
    /// SDP answer from the responding peer.
    Answer {
        /// The `session_id` of the offer that is answered.
        session_id: u64,
        /// The SDP answer.
        sdp: String,
    },
    /// A trickled ICE candidate.
    IceCandidate {
        /// Session this candidate belongs to.
        session_id: u64,
        /// The ICE candidate in SDP format.
        candidate: String,
        /// The SDP media line identifier.
        sdp_mid: Option<String>,
    },
    /// Request to close an existing WebRTC session.
    Close {
        /// Session to close.
        session_id: u64,
    },
}

/// What a [`SignalingMsg`] says.
#[allow(inconsistent_fields)]
#[verifier::ext_equal]
pub enum SignalingMsgView {
    Offer { session_id: u64, sdp: Seq<char> },
    Answer { session_id: u64, sdp: Seq<char> },
    IceCandidate { session_id: u64, candidate: Seq<char>, sdp_mid: Option<Seq<char>> },
    Close { session_id: u64 },
}

impl SignalingMsg {
    /// What the message says.
    pub open spec fn view(&self) -> SignalingMsgView {
        match self {
            SignalingMsg::Offer { session_id, sdp } => SignalingMsgView::Offer {
                session_id: *session_id,
                sdp: sdp@,
            },
            SignalingMsg::Answer { session_id, sdp } => SignalingMsgView::Answer {
                session_id: *session_id,
                sdp: sdp@,
            },
            SignalingMsg::IceCandidate { session_id, candidate, sdp_mid } => {
                SignalingMsgView::IceCandidate {
                    session_id: *session_id,
                    candidate: candidate@,
                    sdp_mid: optional_text(*sdp_mid),
                }
            },
            SignalingMsg::Close { session_id } => SignalingMsgView::Close {
                session_id: *session_id,
            },
        }
    }
}

/// A signaling message with the peer that it comes from or goes to.
#[derive(Debug, Clone, PartialEq, Eq)]
pub struct SignalingEnvelope {
    /// The remote peer that sent, or should receive, the message.
    pub peer: EndpointId,
    /// The message.
    pub msg: SignalingMsg,
}

/// What a [`SignalingEnvelope`] says.
#[verifier::ext_equal]
pub struct SignalingEnvelopeView {
    pub peer: Seq<u8>,
    pub msg: SignalingMsgView,
}

impl SignalingEnvelope {
    /// What the envelope says.
    pub open spec fn view(&self) -> SignalingEnvelopeView {
        SignalingEnvelopeView { peer: self.peer@, msg: self.msg@ }
    }
}

/// The bytes that a message is written as.
pub open spec fn encoded(msg: SignalingMsgView) -> Seq<u8> {
    match msg {
        SignalingMsgView::Offer { session_id, sdp } => text_record(OFFER_TAG, session_id, sdp),
        SignalingMsgView::Answer { session_id, sdp } => text_record(ANSWER_TAG, session_id, sdp),
        SignalingMsgView::IceCandidate { session_id, candidate, sdp_mid } => pair_record(
            ICE_CANDIDATE_TAG,
            session_id,
            candidate,
            sdp_mid,
        ),
        SignalingMsgView::Close { session_id } => head_record(CLOSE_TAG, session_id),
    }
}

/// The message that the records read off one buffer make up: the head says which
/// variant it is, and the variant says which record holds the fields.
pub open spec fn assembled(
    head: Option<(u32, u64)>,
    text: Option<(u32, u64, Seq<char>)>,
    pair: Option<(u32, u64, Seq<char>, Option<Seq<char>>)>,
) -> Option<SignalingMsgView> {
    match head {
        None => None,
        Some((tag, session_id)) => if tag == OFFER_TAG {
            match text {
                Some((_, session_id, sdp)) => Some(SignalingMsgView::Offer { session_id, sdp }),
                None => None,
            }
        } else if tag == ANSWER_TAG {
            match text {
                Some((_, session_id, sdp)) => Some(SignalingMsgView::Answer { session_id, sdp }),
                None => None,
            }
        } else if tag == ICE_CANDIDATE_TAG {
            match pair {
                Some((_, session_id, candidate, sdp_mid)) => Some(
                    SignalingMsgView::IceCandidate { session_id, candidate, sdp_mid },
                ),
                None => None,
            }
        } else if tag == CLOSE_TAG {
            Some(SignalingMsgView::Close { session_id })
        } else {
            None
        },
    }
}

/// The message that some bytes are read as.
pub open spec fn decoded(data: Seq<u8>) -> Option<SignalingMsgView> {
    assembled(head_read(data), text_read(data), pair_read(data))
}

/// A message is read back from the bytes that it is written as.
pub proof fn law_message_round_trip(msg: SignalingMsgView)
    requires
        encoded(msg).len() <= usize::MAX,
    ensures
        decoded(encoded(msg)) == Some(msg),
{
    match msg {
        SignalingMsgView::Offer { session_id, sdp } => {
            law_text_record_round_trip(OFFER_TAG, session_id, sdp);
        },
        SignalingMsgView::Answer { session_id, sdp } => {
            law_text_record_round_trip(ANSWER_TAG, session_id, sdp);
        },
        SignalingMsgView::IceCandidate { session_id, candidate, sdp_mid } => {
            law_pair_record_round_trip(ICE_CANDIDATE_TAG, session_id, candidate, sdp_mid);
        },
        SignalingMsgView::Close { session_id } => {
            law_head_round_trip(CLOSE_TAG, session_id, Seq::empty());
            assert(head_record(CLOSE_TAG, session_id) + Seq::<u8>::empty() =~= head_record(
                CLOSE_TAG,
                session_id,
            ));
        },
    }
}

/// What an optional message says.
pub open spec fn optional_msg(msg: Option<SignalingMsg>) -> Option<SignalingMsgView> {
    match msg {
        Some(msg) => Some(msg@),
        None => None,
    }
}

/// The bytes of a message, as a vector.
pub(crate) fn encode_to_vec(msg: &SignalingMsg) -> (bytes: Vec<u8>)
    ensures
        bytes@ == encoded(msg@),
        decoded(bytes@) == Some(msg@),
{
    let bytes = match msg {
        SignalingMsg::Offer { session_id, sdp } => write_text(OFFER_TAG, *session_id, sdp),
        SignalingMsg::Answer { session_id, sdp } => write_text(ANSWER_TAG, *session_id, sdp),
        SignalingMsg::IceCandidate { session_id, candidate, sdp_mid } => write_pair(
            ICE_CANDIDATE_TAG,
            *session_id,
            candidate,
            sdp_mid,
        ),
        SignalingMsg::Close { session_id } => write_head(CLOSE_TAG, *session_id),
    };
    proof {
        assert(bytes@.len() == bytes.len());
        law_message_round_trip(msg@);
    }
    bytes
}

/// Encodes a signaling message. Decoding the bytes gives the message back.
///
/// Framing, such as a length prefix on a stream, is up to the caller.
pub fn encode(msg: &SignalingMsg) -> (bytes: Bytes)
    ensures
        buffer_contents(bytes) == encoded(msg@),
        decoded(buffer_contents(bytes)) == Some(msg@),
{
    buffer_from_vec(encode_to_vec(msg))
}

/// Puts a message together from the records read off one buffer.
pub fn assemble(
    head: Option<(u32, u64)>,
    text: Option<(u32, u64, String)>,
    pair: Option<(u32, u64, String, Option<String>)>,
) -> (msg: Option<SignalingMsg>)
    ensures
        optional_msg(msg) == assembled(head, text_record_view(text), pair_record_view(pair)),
{
    let (tag, session_id): (u32, u64) = match head {
        Some(head) => head,
        None => {
            return None;
        },
    };
    if tag == OFFER_TAG {
        match text {
            Some((_, session_id, sdp)) => Some(SignalingMsg::Offer { session_id, sdp }),
            None => None,
        }
    } else if tag == ANSWER_TAG {
        match text {
            Some((_, session_id, sdp)) => Some(SignalingMsg::Answer { session_id, sdp }),
            None => None,
        }
    } else if tag == ICE_CANDIDATE_TAG {
        match pair {
            Some((_, session_id, candidate, sdp_mid)) => Some(
                SignalingMsg::IceCandidate { session_id, candidate, sdp_mid },
            ),
            None => None,
        }
    } else if tag == CLOSE_TAG {
        Some(SignalingMsg::Close { session_id })
    } else {
        None
    }
}

/// Decodes a signaling message; `None` if the bytes are none.
pub fn decode(data: &[u8]) -> (msg: Option<SignalingMsg>)
    ensures
        optional_msg(msg) == decoded(data@),
{
    match read_head(data) {
        None => None,
        Some((tag, session_id)) => {
            let text = if tag == OFFER_TAG || tag == ANSWER_TAG {
                read_text(data)
            } else {
                None
            };
            let pair = if tag == ICE_CANDIDATE_TAG {
                read_pair(data)
            } else {
                None
            };
            assemble(Some((tag, session_id)), text, pair)
        },
    }
}

/// A message is read back from the bytes that it is written as, whatever follows them.
pub proof fn law_decoding_ignores_rest(msg: SignalingMsgView, rest: Seq<u8>)
    requires
        encoded(msg).len() <= usize::MAX,
    ensures
        decoded(encoded(msg) + rest) == Some(msg),
{
    match msg {
        SignalingMsgView::Offer { session_id, sdp } => {
            lemma_text_before(OFFER_TAG, session_id, sdp, rest);
        },
        SignalingMsgView::Answer { session_id, sdp } => {
            lemma_text_before(ANSWER_TAG, session_id, sdp, rest);
        },
        SignalingMsgView::IceCandidate { session_id, candidate, sdp_mid } => {
            let tail = optional_bytes(sdp_mid) + rest;
            lemma_text_before(ICE_CANDIDATE_TAG, session_id, candidate, tail);
            assert(encoded(msg) + rest =~= text_record(ICE_CANDIDATE_TAG, session_id, candidate)
                + tail);
            let head = head_record(ICE_CANDIDATE_TAG, session_id);
            assert(encoded(msg) + rest =~= head + (text_bytes(candidate) + tail));
            law_head_round_trip(ICE_CANDIDATE_TAG, session_id, text_bytes(candidate) + tail);
            law_text_round_trip(candidate, tail);
            if let Some(mid) = sdp_mid {
                law_text_round_trip(mid, rest);
                assert(tail.drop_first() =~= text_bytes(mid) + rest);
            }
        },
        SignalingMsgView::Close { session_id } => {
            law_head_round_trip(CLOSE_TAG, session_id, rest);
        },
    }
}

proof fn lemma_text_before(tag: u32, session_id: u64, text: Seq<char>, rest: Seq<u8>)
    requires
        encode_utf8(text).len() <= usize::MAX,
    ensures
        text_read(text_record(tag, session_id, text) + rest) == Some((tag, session_id, text)),
        head_read(text_record(tag, session_id, text) + rest) == Some((tag, session_id)),
{
    assert(text_record(tag, session_id, text) + rest =~= head_record(tag, session_id) + (text_bytes(
        text,
    ) + rest));
    law_head_round_trip(tag, session_id, text_bytes(text) + rest);
    law_text_round_trip(text, rest);
}

/// The first byte of a message tells what it is. The session follows, and then what the
/// message carries: each text behind the length of its UTF-8 form, and the media line of a
/// candidate behind a byte that says whether there is one.
pub proof fn law_message_layout(session_id: u64, text: Seq<char>, mid: Option<Seq<char>>)
    ensures
        ({
            let session = varint(session_id as nat);
            let body = varint(encode_utf8(text).len()) + encode_utf8(text);
            &&& encoded(SignalingMsgView::Offer { session_id, sdp: text }) == seq![0u8] + session
                + body
            &&& encoded(SignalingMsgView::Answer { session_id, sdp: text }) == seq![1u8] + session
                + body
            &&& encoded(
                SignalingMsgView::IceCandidate { session_id, candidate: text, sdp_mid: mid },
            ) == seq![2u8] + session + body + match mid {
                Some(mid) => seq![1u8] + varint(encode_utf8(mid).len()) + encode_utf8(mid),
                None => seq![0u8],
            }
            &&& encoded(SignalingMsgView::Close { session_id }) == seq![3u8] + session
        }),
{
    let session = varint(session_id as nat);
    let body = varint(encode_utf8(text).len()) + encode_utf8(text);
    assert(encoded(SignalingMsgView::Offer { session_id, sdp: text }) =~= seq![0u8] + session
        + body);
    assert(encoded(SignalingMsgView::Answer { session_id, sdp: text }) =~= seq![1u8] + session
        + body);
    assert(encoded(
        SignalingMsgView::IceCandidate { session_id, candidate: text, sdp_mid: mid },
    ) =~= seq![2u8] + session + body + match mid {
        Some(mid) => seq![1u8] + varint(encode_utf8(mid).len()) + encode_utf8(mid),
        None => seq![0u8],
    });
}

/// Nothing is read into bytes that they do not hold: what a decoded message says is what
/// its records say, and bytes whose first number is none of the four are no message.
pub proof fn law_decoded_is_what_was_read(data: Seq<u8>)
    ensures
        match decoded(data) {
            Some(SignalingMsgView::Offer { session_id, sdp }) => text_read(data) == Some(
                (0u32, session_id, sdp),
            ),
            Some(SignalingMsgView::Answer { session_id, sdp }) => text_read(data) == Some(
                (1u32, session_id, sdp),
            ),
            Some(SignalingMsgView::IceCandidate { session_id, candidate, sdp_mid }) => pair_read(
                data,
            ) == Some((2u32, session_id, candidate, sdp_mid)),
            Some(SignalingMsgView::Close { session_id }) => head_read(data) == Some(
                (3u32, session_id),
            ),
            None => match head_read(data) {
                None => true,
                Some((tag, _)) => (tag <= 1 && text_read(data) is None) || (tag == 2 && pair_read(
                    data,
                ) is None) || tag > 3,
            },
        },
{
}

} // verus!
