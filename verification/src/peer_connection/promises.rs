//! What whoever calls the native manager can rely on.
//!
//! Each law speaks of one call: of the manager before and after it, of what was handed in,
//! and of what came back.

use std::time::Instant;

use bytes::Bytes;
use vstd::prelude::*;

use crate::addr::{key_less, EndpointId};
use crate::net::SocketAddr;
use crate::payload::buffer_contents;
use crate::peer_connection::driving::{
    data_of, law_poll_delivers_data, law_poll_feeds_every_session,
};
use crate::peer_connection::effects::{
    law_accepted_offer_is_answered, law_answer_reaches_session, law_candidate_reaches_session,
    law_close_ends_named_session, law_closed_channel_ends_connection, law_data_is_delivered,
    law_failed_offer_sets_nothing_up, law_lost_peer_is_closed, law_offer_ignored_by_greater_key,
    law_open_channel_connects, law_send_starts_session, law_send_waits_for_connection,
    law_send_writes_to_channel, law_stray_answer_changes_nothing, reports, transmits, writes,
};
use crate::peer_connection::error::{connect_result, peer_result, ConnectError, PeerError};
use crate::peer_connection::laws::law_network_change_wakes;
use crate::peer_connection::model::{datagram_views, envelope_views, Packet, PacketView, PeerView};
use crate::peer_connection::native::{
    answer_offer, conclude_answer, conclude_write, PeerConnectionManager,
};
use crate::peer_connection::rtc::{
    candidate_error, data_only, is_answer, is_host_address, is_offer, IceState, RtcEvent, Session,
    Step, WriteOutcome, WriteOutcomeView,
};
use crate::peer_connection::ConnectionState;
use crate::signaling::{SignalingEnvelope, SignalingEnvelopeView, SignalingMsgView};

verus! {

/// A session id that is handed out is the one that was due, and the next one is due then.
pub proof fn law_session_id_is_handed_out<S, W>(
    manager: &mut PeerConnectionManager<S, W>,
    id: u64,
)
    requires
        call_ensures(PeerConnectionManager::<S, W>::next_session_id, (manager,), id),
    ensures
        id == old(manager)@.next_session_id,
        final(manager)@.next_session_id == (id + 1) % 0x1_0000_0000_0000_0000,
        final(manager)@.peers == old(manager)@.peers,
        final(manager)@.signaling == old(manager)@.signaling,
{
}

/// A candidate that is accepted is added to the session of the peer that it names, as it
/// came; one that is refused changes nothing. It is accepted exactly if it can be read and
/// names the current session.
pub proof fn law_candidate_call<S, W>(
    manager: &mut PeerConnectionManager<S, W>,
    peer: EndpointId,
    session_id: u64,
    candidate: &str,
    sdp_mid: Option<&str>,
    result: Result<(), PeerError>,
)
    requires
        call_ensures(
            PeerConnectionManager::<S, W>::handle_ice_candidate,
            (manager, peer, session_id, candidate, sdp_mid),
            result,
        ),
    ensures
        result is Ok <==> {
            &&& old(manager)@.peers.dom().contains(peer@)
            &&& old(manager)@.peers[peer@].session_id == session_id
            &&& candidate_error(candidate@) is None
        },
        result is Ok ==> final(manager)@.peers[peer@].trace == old(
            manager,
        )@.peers[peer@].trace.push(Step::RemoteCandidate { text: candidate@ }),
        result is Err ==> final(manager)@ == old(manager)@,
{
    law_candidate_reaches_session(old(manager)@, peer@, session_id, candidate@);
    if result is Ok {
        let trace = final(manager)@.peers[peer@].trace;
        assert(trace =~= trace.drop_last().push(trace.last()));
    }
}

/// An answer is accepted exactly if the session that it names takes it as the answer to
/// the offer that awaits one; that offer is then spent.
pub proof fn law_answer_call<S, W>(
    manager: &mut PeerConnectionManager<S, W>,
    peer: EndpointId,
    session_id: u64,
    sdp: &str,
    result: Result<(), PeerError>,
)
    requires
        call_ensures(
            PeerConnectionManager::<S, W>::handle_answer,
            (manager, peer, session_id, sdp),
            result,
        ),
    ensures
        ({
            let before = old(manager)@.peers[peer@];
            let after = final(manager)@.peers[peer@];
            let awaited = old(manager)@.peers.dom().contains(peer@) && before.session_id
                == session_id && before.pending_offer is Some;
            &&& !awaited ==> result is Err && final(manager)@ == old(manager)@
            &&& awaited ==> after.pending_offer is None && after.state == before.state
            &&& awaited && is_answer(sdp@) ==> {
                &&& after.trace.len() == before.trace.len() + 1
                &&& after.trace.drop_last() == before.trace
                &&& after.trace.last() is AnswerAccepted
                &&& after.trace.last()->AnswerAccepted_offer == before.pending_offer->0
                &&& after.trace.last()->answer == sdp@
                &&& result is Ok <==> after.trace.last()->AnswerAccepted_outcome is Ok
            }
            &&& awaited && !is_answer(sdp@) ==> {
                &&& result matches Err(PeerError::InvalidAnswer(_))
                &&& after.trace == before.trace
            }
        }),
{
    let before = old(manager)@.peers[peer@];
    let said = peer_result(result);
    if old(manager)@.peers.dom().contains(peer@) && before.session_id == session_id
        && before.pending_offer is Some {
        law_answer_reaches_session(
            old(manager)@,
            peer@,
            session_id,
            sdp@,
            final(manager)@,
            said,
        );
    } else {
        law_stray_answer_changes_nothing(
            old(manager)@,
            peer@,
            session_id,
            sdp@,
            final(manager)@,
            said,
        );
    }
}

/// A close request ends the session that it names, and no other.
pub proof fn law_close_call<S, W>(
    manager: &mut PeerConnectionManager<S, W>,
    peer: EndpointId,
    session_id: u64,
    other: Seq<u8>,
)
    requires
        call_ensures(
            PeerConnectionManager::<S, W>::handle_close,
            (manager, peer, session_id),
            (),
        ),
    ensures
        ({
            let named = old(manager)@.peers.dom().contains(peer@) && old(
                manager,
            )@.peers[peer@].session_id == session_id;
            &&& named ==> !final(manager)@.peers.dom().contains(peer@)
            &&& !named ==> final(manager)@ == old(manager)@
            &&& other != peer@ ==> {
                &&& final(manager)@.peers.dom().contains(other) == old(
                    manager,
                )@.peers.dom().contains(other)
                &&& final(manager)@.peers[other] == old(manager)@.peers[other]
            }
        }),
{
    law_close_ends_named_session(old(manager)@, peer@, session_id, other);
}

/// An offer that is accepted is answered, in the session that it names, with what the
/// session that took it said; one that fails is not. While both sides offer, the side
/// whose key is not the smaller ignores the offer of the other.
pub proof fn law_offer_call<S, W, E, F: Fn() -> Result<(S, SocketAddr), E>>(
    manager: &mut PeerConnectionManager<S, W>,
    peer: EndpointId,
    session_id: u64,
    sdp: &str,
    now: Instant,
    bind: &F,
    result: Result<(), ConnectError<E>>,
)
    requires
        call_ensures(
            PeerConnectionManager::<S, W>::handle_offer::<E, F>,
            (manager, peer, session_id, sdp, now, bind),
            result,
        ),
    ensures
        ({
            let collides = old(manager)@.peers.dom().contains(peer@) && old(
                manager,
            )@.peers[peer@].state == ConnectionState::Connecting;
            let ignored = collides && !key_less(old(manager)@.my_id, peer@);
            let after = final(manager)@.peers[peer@];
            &&& ignored ==> result is Ok && final(manager)@ == old(manager)@
            &&& !ignored && result is Ok ==> {
                &&& is_offer(sdp@)
                &&& final(manager)@.peers.dom().contains(peer@)
                &&& after.session_id == session_id
                &&& after.state == ConnectionState::Connecting
                &&& after.trace.last() is OfferAccepted
                &&& after.trace.last()->OfferAccepted_offer == sdp@
                &&& after.trace.last()->OfferAccepted_outcome is Ok
                &&& final(manager)@.signaling == old(manager)@.signaling.push(
                    SignalingEnvelopeView {
                        peer: peer@,
                        msg: SignalingMsgView::Answer {
                            session_id,
                            sdp: after.trace.last()->OfferAccepted_outcome->Ok_0,
                        },
                    },
                )
            }
            &&& result is Err ==> {
                &&& !ignored
                &&& final(manager)@.signaling == old(manager)@.signaling
                &&& final(manager)@.peers == if collides {
                    old(manager)@.peers.remove(peer@)
                } else {
                    old(manager)@.peers
                }
            }
            &&& !is_offer(sdp@) && !ignored ==> result is Err
        }),
{
    let said = connect_result(result);
    let pre = old(manager)@;
    let post = final(manager)@;
    let collides = pre.peers.dom().contains(peer@) && pre.peers[peer@].state
        == ConnectionState::Connecting;
    if collides && !key_less(pre.my_id, peer@) {
        law_offer_ignored_by_greater_key(pre, peer@, session_id, sdp@, now, *bind, post, said);
    } else if result is Ok {
        law_accepted_offer_is_answered(pre, peer@, session_id, sdp@, now, *bind, post, said);
    } else {
        law_failed_offer_sets_nothing_up(pre, peer@, session_id, sdp@, now, *bind, post, said);
    }
}

/// A datagram that is sent is written to the channel of a connected peer as it is; it waits,
/// with its sender, while a connection is being set up; and it starts a new session if there
/// is none that could carry it.
pub proof fn law_send_call<S, W, E, F: Fn() -> Result<(S, SocketAddr), E>>(
    manager: &mut PeerConnectionManager<S, W>,
    peer: EndpointId,
    data: &[u8],
    waker: W,
    now: Instant,
    bind: &F,
    result: Result<(), ConnectError<E>>,
)
    requires
        call_ensures(
            PeerConnectionManager::<S, W>::send::<E, F>,
            (manager, peer, data, waker, now, bind),
            result,
        ),
    ensures
        ({
            let pre = old(manager)@;
            let post = final(manager)@;
            let known = pre.peers.dom().contains(peer@);
            let before = pre.peers[peer@];
            let after = post.peers[peer@];
            &&& known && before.state == ConnectionState::Connected && before.channel is Some ==> {
                let steps = after.trace.skip(before.trace.len() as int);
                &&& writes(after.trace) == writes(before.trace).push((before.channel->0, data@))
                &&& after.trace.take(before.trace.len() as int) == before.trace
                &&& steps[0] is Written
                &&& result is Ok <==> steps[0]->Written_outcome is Accepted
                &&& after.outbox == before.outbox + transmits(steps)
                &&& after.deferred == before.deferred + reports(steps)
                &&& after.state == ConnectionState::Connected
                &&& post.signaling == pre.signaling
                &&& post.next_session_id == pre.next_session_id
            }
            &&& known && before.state == ConnectionState::Connecting ==> {
                &&& result == Err::<(), _>(ConnectError::<E>::Peer(PeerError::WouldBlock))
                &&& after.pending_sends == before.pending_sends.push(data@)
                &&& after.waker == Some(waker)
                &&& after.trace == before.trace
                &&& post.signaling == pre.signaling
                &&& post.next_session_id == pre.next_session_id
            }
            &&& !known || before.state == ConnectionState::Closed ==> {
                &&& result is Err
                &&& post.next_session_id == (pre.next_session_id + 1) % 0x1_0000_0000_0000_0000
                &&& post.peers.dom().contains(peer@) ==> {
                    &&& result == Err::<(), _>(ConnectError::<E>::Peer(PeerError::WouldBlock))
                    &&& after.session_id == pre.next_session_id
                    &&& after.state == ConnectionState::Connecting
                    &&& after.pending_sends == seq![data@]
                    &&& after.waker == Some(waker)
                    &&& after.pending_offer is Some
                    &&& post.signaling == pre.signaling.push(
                        SignalingEnvelopeView {
                            peer: peer@,
                            msg: SignalingMsgView::Offer {
                                session_id: pre.next_session_id,
                                sdp: after.pending_offer->0,
                            },
                        },
                    )
                }
                &&& !post.peers.dom().contains(peer@) ==> {
                    &&& result matches Err(ConnectError::Bind(_))
                    &&& post.signaling == pre.signaling
                }
            }
        }),
{
    let said = connect_result(result);
    let pre = old(manager)@;
    let post = final(manager)@;
    if !pre.peers.dom().contains(peer@) || pre.peers[peer@].state == ConnectionState::Closed {
        law_send_starts_session(pre, peer@, data@, waker, now, *bind, post, said);
    } else if pre.peers[peer@].state == ConnectionState::Connecting {
        law_send_waits_for_connection(pre, peer@, data@, waker, now, *bind, post, said);
    } else if pre.peers[peer@].channel is Some {
        law_send_writes_to_channel(pre, peer@, data@, waker, now, *bind, post, said);
    }
}

/// An event of a session does to the connection of its peer what it says: a channel that
/// opens connects it and takes what waits, the closing of the channel in use and the loss
/// of the peer close it, and data is delivered.
pub proof fn law_event_call<S, W>(
    manager: &mut PeerConnectionManager<S, W>,
    peer: EndpointId,
    event: RtcEvent,
)
    requires
        call_ensures(PeerConnectionManager::<S, W>::handle_event, (manager, peer, event), ()),
    ensures
        ({
            let pre = old(manager)@;
            let post = final(manager)@;
            let known = pre.peers.dom().contains(peer@);
            let before = pre.peers[peer@];
            let after = post.peers[peer@];
            match event {
                RtcEvent::ChannelOpen(channel, _) => if known {
                    &&& after.state == ConnectionState::Connected
                    &&& after.channel == Some(channel)
                    &&& after.pending_sends.len() == 0
                    &&& after.waker is None
                    &&& writes(after.trace) == writes(before.trace)
                        + before.pending_sends.map_values(|data: Seq<u8>| (channel, data))
                    &&& match before.waker {
                        Some(waker) => post.woken == pre.woken.push(waker),
                        None => post.woken == pre.woken,
                    }
                } else {
                    post == pre
                },
                RtcEvent::ChannelClose(channel) => if known && before.channel == Some(channel) {
                    &&& after.state == ConnectionState::Closed
                    &&& after.channel is None
                    &&& after.pending_sends == before.pending_sends
                    &&& after.trace == before.trace
                } else {
                    post == pre
                },
                RtcEvent::ChannelData(data) => {
                    &&& post.datagrams == pre.datagrams.push((peer@, data@))
                    &&& post.peers == pre.peers
                },
                RtcEvent::Ice(state) => if known && state == IceState::Disconnected {
                    &&& after.state == ConnectionState::Closed
                    &&& after.waker is None
                    &&& after.trace == before.trace
                    &&& match before.waker {
                        Some(waker) => post.woken == pre.woken.push(waker),
                        None => post.woken == pre.woken,
                    }
                } else {
                    post == pre
                },
                RtcEvent::Other => post == pre,
            }
        }),
{
    let pre = old(manager)@;
    let post = final(manager)@;
    match event {
        RtcEvent::ChannelOpen(channel, label) => {
            if pre.peers.dom().contains(peer@) {
                law_open_channel_connects(pre, peer@, channel, label@, post);
            }
        },
        RtcEvent::ChannelClose(channel) => {
            law_closed_channel_ends_connection(pre, peer@, channel, post);
        },
        RtcEvent::ChannelData(data) => {
            law_data_is_delivered(pre, peer@, data@, post);
            assert(post.datagrams =~= post.datagrams.drop_last().push(post.datagrams.last()));
        },
        RtcEvent::Ice(state) => {
            law_lost_peer_is_closed(pre, peer@, state, post);
        },
        RtcEvent::Other => {},
    }
}

/// A poll hands every session what arrived on the socket of its peer, and then the time; and
/// it delivers the data that came of it. It adds and drops no connection, and signals
/// nothing.
pub proof fn law_poll_call<S, W>(
    manager: &mut PeerConnectionManager<S, W>,
    now: Instant,
    packets: &Vec<Packet>,
    peer: Seq<u8>,
)
    requires
        call_ensures(PeerConnectionManager::<S, W>::poll, (manager, now, packets), ()),
        old(manager)@.peers.dom().contains(peer),
    ensures
        final(manager)@.peers.dom() == old(manager)@.peers.dom(),
        ({
            let before = old(manager)@.peers[peer];
            let after = final(manager)@.peers[peer];
            let steps = after.trace.skip(before.trace.len() as int);
            let own = packets@.map_values(|packet: Packet| packet@).filter(
                |packet: PacketView| packet.peer == peer,
            );
            &&& after.trace.take(before.trace.len() as int) == before.trace
            &&& own.len() + 1 < steps.len()
            &&& forall|i: int|
                0 <= i < own.len() ==> {
                    &&& #[trigger] steps[i] is Received
                    &&& steps[i]->Received_at == now
                    &&& steps[i]->source == own[i].source
                    &&& steps[i]->local == own[i].local
                    &&& steps[i]->Received_data == own[i].data
                }
            &&& steps[own.len() as int] is TimedOut
            &&& steps[own.len() as int]->TimedOut_at == now
            &&& after.outbox == before.outbox + transmits(steps)
            &&& exists|n: int|
                {
                    &&& 0 < n <= steps.len()
                    &&& final(manager)@.datagrams.skip(old(manager)@.datagrams.len() as int).filter(
                        |datagram: (Seq<u8>, Seq<u8>)| datagram.0 == peer,
                    ) == data_of(
                        before.deferred + reports(#[trigger] steps.take(n)),
                    ).map_values(|data: Seq<u8>| (peer, data))
                    &&& after.deferred == reports(steps.skip(n))
                }
        }),
{
    let views = packets@.map_values(|packet: Packet| packet@);
    law_poll_feeds_every_session(old(manager)@, now, views, final(manager)@, peer);
    law_poll_delivers_data(old(manager)@, now, views, final(manager)@, peer);
    let before = old(manager)@.peers[peer].trace;
    let steps = final(manager)@.peers[peer].trace.skip(before.len() as int);
    assert(steps.len() == final(manager)@.peers[peer].trace.len() - before.len());
}

/// After a major change of the network no connection is left and whoever waited for one is
/// woken; a minor one changes nothing.
pub proof fn law_network_change_call<S, W>(
    manager: &mut PeerConnectionManager<S, W>,
    major: bool,
    peer: Seq<u8>,
)
    requires
        call_ensures(PeerConnectionManager::<S, W>::on_network_change, (manager, major), ()),
    ensures
        major ==> {
            &&& final(manager)@.peers == Map::<Seq<u8>, PeerView<S, W>>::empty()
            &&& old(manager)@.peers.dom().contains(peer) ==> (old(manager)@.peers[peer].waker
                matches Some(waker) ==> final(manager)@.woken.contains(waker))
            &&& final(manager)@.next_session_id == old(manager)@.next_session_id
            &&& final(manager)@.signaling == old(manager)@.signaling
        },
        !major ==> final(manager)@ == old(manager)@,
{
    if major {
        law_network_change_wakes(old(manager)@, final(manager)@, peer);
    }
}

/// Signaling messages, datagrams and senders to be woken are handed out once: all of them,
/// in order, and none is left.
pub proof fn law_taking_empties<S, W>(
    signaling: &mut PeerConnectionManager<S, W>,
    envelopes: Vec<SignalingEnvelope>,
    delivering: &mut PeerConnectionManager<S, W>,
    datagrams: Vec<(EndpointId, Bytes)>,
    waking: &mut PeerConnectionManager<S, W>,
    woken: Vec<W>,
)
    requires
        call_ensures(PeerConnectionManager::<S, W>::take_signaling, (signaling,), envelopes),
        call_ensures(PeerConnectionManager::<S, W>::take_datagrams, (delivering,), datagrams),
        call_ensures(PeerConnectionManager::<S, W>::take_woken, (waking,), woken),
    ensures
        envelopes@.len() == old(signaling)@.signaling.len(),
        forall|i: int|
            0 <= i < envelopes@.len() ==> (#[trigger] envelopes@[i])@ == old(
                signaling,
            )@.signaling[i],
        final(signaling)@.signaling.len() == 0,
        final(signaling)@.peers == old(signaling)@.peers,
        datagrams@.len() == old(delivering)@.datagrams.len(),
        forall|i: int|
            0 <= i < datagrams@.len() ==> (
                (#[trigger] datagrams@[i]).0@,
                buffer_contents(datagrams@[i].1),
            ) == old(delivering)@.datagrams[i],
        final(delivering)@.datagrams.len() == 0,
        final(delivering)@.peers == old(delivering)@.peers,
        woken@ == old(waking)@.woken,
        final(waking)@.woken.len() == 0,
        final(waking)@.peers == old(waking)@.peers,
{
    assert forall|i: int| 0 <= i < envelopes@.len() implies (#[trigger] envelopes@[i])@ == old(
        signaling,
    )@.signaling[i] by {
        assert(envelope_views(envelopes@)[i] == envelopes@[i]@);
    }
    assert forall|i: int| 0 <= i < datagrams@.len() implies (
        (#[trigger] datagrams@[i]).0@,
        buffer_contents(datagrams@[i].1),
    ) == old(delivering)@.datagrams[i] by {
        assert(datagram_views(datagrams@)[i] == (
            datagrams@[i].0@,
            buffer_contents(datagrams@[i].1),
        ));
    }
}

/// A new manager holds no connection, has nothing to hand out, and starts its sessions at
/// zero.
pub proof fn law_new_manager_is_empty<S, W>(
    my_id: EndpointId,
    manager: PeerConnectionManager<S, W>,
)
    requires
        call_ensures(PeerConnectionManager::<S, W>::new, (my_id,), manager),
    ensures
        manager@.my_id == my_id@,
        manager@.next_session_id == 0,
        forall|peer: Seq<u8>| !#[trigger] manager@.peers.dom().contains(peer),
        manager@.signaling.len() == 0,
        manager@.datagrams.len() == 0,
        manager@.woken.len() == 0,
{
}

/// An offer for data is put to a new session, which knows the local address if that can be a
/// candidate; what is no offer, and an offer for media, is not.
pub proof fn law_answer_offer_call(
    now: Instant,
    addr: &SocketAddr,
    sdp: &str,
    answered: Result<(Session, Result<String, String>), PeerError>,
)
    requires
        call_ensures(answer_offer, (now, addr, sdp), answered),
    ensures
        answered is Ok <==> is_offer(sdp@) && data_only(sdp@),
        !is_offer(sdp@) ==> answered matches Err(PeerError::InvalidOffer(_)),
        is_offer(sdp@) && !data_only(sdp@) ==> answered == Err::<
            (Session, Result<String, String>),
            PeerError,
        >(PeerError::MediaOffered),
        answered matches Ok((session, outcome)) ==> {
            let trace = session.trace();
            &&& trace[0] == (Step::Built { ice_lite: false, at: now })
            &&& if is_host_address(addr@) {
                trace.len() == 3 && trace[1] == (Step::LocalCandidate { addr: addr@ })
            } else {
                trace.len() == 2
            }
            &&& trace.last() is OfferAccepted
            &&& trace.last()->OfferAccepted_offer == sdp@
            &&& match outcome {
                Ok(answer) => trace.last()->OfferAccepted_outcome == Ok::<Seq<char>, Seq<char>>(
                    answer@,
                ),
                Err(e) => trace.last()->OfferAccepted_outcome == Err::<Seq<char>, Seq<char>>(e@),
            }
        },
{
}

/// What a session said to an offer is passed on: its answer, and then the connection is set
/// up, or its refusal, and then nothing changes.
pub proof fn law_conclude_offer_call<S, W>(
    manager: &mut PeerConnectionManager<S, W>,
    peer: EndpointId,
    session_id: u64,
    session: Session,
    socket: S,
    outcome: Result<String, String>,
    result: Result<(), PeerError>,
)
    requires
        call_ensures(
            PeerConnectionManager::<S, W>::conclude_offer,
            (manager, peer, session_id, session, socket, outcome),
            result,
        ),
    ensures
        match outcome {
            Ok(answer) => {
                let after = final(manager)@.peers[peer@];
                &&& result is Ok
                &&& final(manager)@.peers.dom().contains(peer@)
                &&& after.session_id == session_id
                &&& after.socket == socket
                &&& after.trace == session.trace()
                &&& after.state == ConnectionState::Connecting
                &&& after.pending_offer is None
                &&& final(manager)@.signaling == old(manager)@.signaling.push(
                    SignalingEnvelopeView {
                        peer: peer@,
                        msg: SignalingMsgView::Answer { session_id, sdp: answer@ },
                    },
                )
            },
            Err(e) => {
                &&& result matches Err(PeerError::OfferRefused(why))
                &&& why@ == e@
                &&& final(manager)@ == old(manager)@
            },
        },
{
}

/// What a session said to an answer, and a channel to a write, is passed on: success as
/// success, and a failure as what it was.
pub proof fn law_conclusions(
    answered: Result<(), String>,
    answer_result: Result<(), PeerError>,
    written: WriteOutcome,
    write_result: Result<(), PeerError>,
)
    requires
        call_ensures(conclude_answer, (answered,), answer_result),
        call_ensures(conclude_write, (written,), write_result),
    ensures
        match answered {
            Ok(_) => answer_result is Ok,
            Err(e) => answer_result matches Err(PeerError::AnswerRefused(why)) && why@ == e@,
        },
        match written@ {
            WriteOutcomeView::Accepted(_) => write_result is Ok,
            WriteOutcomeView::Missing => write_result matches Err(PeerError::ChannelNotFound),
            WriteOutcomeView::Failed(e) => write_result matches Err(PeerError::WriteFailed(why))
                && why@ == e,
        },
{
}

} // verus!
