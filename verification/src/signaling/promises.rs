//! What whoever exchanges signaling messages can rely on.
//!
//! Each law relates calls: what one side hands over and what the other side reads of it.

use bytes::Bytes;
use vstd::prelude::*;

use crate::addr::{key_less, EndpointId};
use crate::payload::buffer_contents;
use crate::signaling::iroh::{frame_length, frame_message, law_frame_layout, open_frame};
use crate::signaling::registry::{
    law_lower_key_dials, law_registration_keeps_one, Registration, Registry,
};
use crate::signaling::relay::{is_signaling, law_tag_stands_first};
use crate::signaling::{encoded, SignalingEnvelope, SignalingMsg};

verus! {

/// A message that is encoded is what comes out when its bytes are decoded.
pub proof fn law_message_calls(
    sent: &SignalingMsg,
    bytes: Bytes,
    data: &[u8],
    read: Option<SignalingMsg>,
)
    requires
        call_ensures(crate::signaling::encode, (sent,), bytes),
        data@ == buffer_contents(bytes),
        call_ensures(crate::signaling::decode, (data,), read),
    ensures
        read is Some,
        read->0@ == sent@,
{
}

/// A message that is sent over the relay is told from other datagrams by the four bytes
/// that it starts with, and comes out at the other side as it was sent.
pub proof fn law_relay_calls(
    sent: &SignalingMsg,
    datagram: Bytes,
    data: &[u8],
    found: bool,
    read: Option<SignalingMsg>,
    other: &[u8],
    other_found: bool,
    other_read: Option<SignalingMsg>,
)
    requires
        call_ensures(crate::signaling::relay::encode, (sent,), datagram),
        data@ == buffer_contents(datagram),
        call_ensures(is_signaling, (data,), found),
        call_ensures(crate::signaling::relay::decode, (data,), read),
        call_ensures(is_signaling, (other,), other_found),
        call_ensures(crate::signaling::relay::decode, (other,), other_read),
    ensures
        found,
        read is Some,
        read->0@ == sent@,
        other_found <==> other@.len() >= 4 && other@[0] == 0x57 && other@[1] == 0x52 && other@[2]
            == 0x54 && other@[3] == 0x43,
        other_read is Some ==> other_found,
{
    law_tag_stands_first(data@);
    law_tag_stands_first(other@);
}

/// A message that is framed is announced by the length of its body, and the body opens to
/// the message that was framed, as one of the peer that it came from.
pub proof fn law_frame_calls(
    sent: &SignalingMsg,
    framed: Option<Vec<u8>>,
    header: &[u8; 4],
    announced: Option<u32>,
    peer: EndpointId,
    body: &[u8],
    envelope: Option<SignalingEnvelope>,
)
    requires
        call_ensures(frame_message, (sent,), framed),
        framed is Some,
        header@ == framed->0@.take(4),
        call_ensures(frame_length, (header,), announced),
        body@ == framed->0@.skip(4),
        call_ensures(open_frame, (peer, body), envelope),
    ensures
        announced is Some,
        announced->0 == body@.len(),
        envelope is Some,
        envelope->0.peer@ == peer@,
        envelope->0.msg@ == sent@,
{
    law_frame_layout(encoded(sent@));
    assert(framed->0@.len() == encoded(sent@).len() + 4);
    assert(header@[0] == framed->0@[0]);
    assert(header@[1] == framed->0@[1]);
    assert(header@[2] == framed->0@[2]);
    assert(header@[3] == framed->0@[3]);
}

/// Of two connections to one peer that were dialed from opposite sides, the one that the
/// side with the smaller key dialed is kept; of two from one side, the later.
pub proof fn law_register_call<H>(
    registry: &mut Registry<H>,
    peer: EndpointId,
    handle: H,
    outbound: bool,
    registration: Registration<H>,
)
    requires
        call_ensures(
            Registry::<H>::register,
            (registry, peer, handle, outbound),
            registration,
        ),
        old(registry)@.my_id.len() == peer@.len(),
        old(registry)@.my_id != peer@,
    ensures
        ({
            let held = old(registry)@.peers.dom().contains(peer@);
            let before = old(registry)@.peers[peer@];
            let after = final(registry)@.peers[peer@];
            let kept = held && before.outbound != outbound && before.outbound == key_less(
                old(registry)@.my_id,
                peer@,
            );
            &&& final(registry)@.my_id == old(registry)@.my_id
            &&& final(registry)@.peers.dom() == old(registry)@.peers.dom().insert(peer@)
            &&& kept ==> after == before && registration == Registration::Duplicate(handle)
            &&& !kept ==> after.handle == handle && after.outbound == outbound
            &&& !kept && held ==> registration == Registration::Installed(Some(before.handle))
            &&& !held ==> registration == Registration::<H>::Installed(None)
        }),
{
    let pre = old(registry)@;
    law_registration_keeps_one(pre, peer@, handle, outbound, peer@);
    if pre.peers.dom().contains(peer@) && pre.peers[peer@].outbound != outbound {
        law_lower_key_dials(pre, peer@, handle, outbound);
    }
}

} // verus!
