//! What whoever calls the browser's manager can rely on.
//!
//! Each law speaks of one call: of what was there before and after it, of what was handed
//! in, and of what came back.

use bytes::Bytes;
use vstd::prelude::*;

use crate::addr::{key_less, EndpointId};
use crate::payload::{buffer_contents, buffers_contents};
use crate::peer_connection::browser::{
    added_now, candidate_views, is_lost, offer_outcome, optional_str, CandidateBuffer, EventPoll,
    EventPollView, PeerConnectionManager,
};
use crate::peer_connection::browser_effects::{
    law_browser_close_ends_named_session, law_browser_loss_closes, law_browser_message_is_delivered,
    law_browser_offer_sets_connection_up, law_browser_open_connects,
    law_browser_other_events_change_nothing, law_browser_send_goes_out,
    law_browser_send_starts_session, law_browser_send_waits, law_browser_signaling_names_session,
    law_candidate_is_held_or_added,
};
use crate::peer_connection::error::{
    connect_result, ConnectError, ConnectErrorView, PeerError, PeerErrorView,
};
use crate::peer_connection::ConnectionState;

verus! {

/// A candidate that arrives before the remote description is held back behind those that
/// arrived earlier; one that arrives later is to be added at once, as it came.
pub proof fn law_arrival_call(
    buffer: &mut CandidateBuffer,
    candidate: &str,
    sdp_mid: Option<&str>,
    now: Option<(String, Option<String>)>,
)
    requires
        call_ensures(CandidateBuffer::arrive, (buffer, candidate, sdp_mid), now),
    ensures
        old(buffer)@.description_set ==> {
            &&& final(buffer)@ == old(buffer)@
            &&& now matches Some((text, mid))
            &&& text@ == candidate@
            &&& mid is Some <==> sdp_mid is Some
            &&& sdp_mid is Some ==> mid->0@ == sdp_mid->0@
        },
        !old(buffer)@.description_set ==> {
            &&& now is None
            &&& !final(buffer)@.description_set
            &&& final(buffer)@.pending.len() == old(buffer)@.pending.len() + 1
            &&& final(buffer)@.pending.drop_last() == old(buffer)@.pending
            &&& final(buffer)@.pending.last().0 == candidate@
            &&& final(buffer)@.pending.last().1 is Some <==> sdp_mid is Some
            &&& sdp_mid is Some ==> final(buffer)@.pending.last().1->0 == sdp_mid->0@
        },
{
    let arriving = (candidate@, optional_str(sdp_mid));
    law_candidate_is_held_or_added(old(buffer)@, arriving);
    if old(buffer)@.description_set {
        let added = added_now(now);
        assert(added.len() == 1);
        assert(added[0] == arriving);
    } else {
        assert(old(buffer)@.pending.push(arriving).drop_last() =~= old(buffer)@.pending);
    }
}

/// When the remote description is there, every candidate that was held back comes out, in
/// the order of arrival, and none is held back any more.
pub proof fn law_opening_call(
    buffer: &mut CandidateBuffer,
    candidates: Vec<(String, Option<String>)>,
)
    requires
        call_ensures(CandidateBuffer::open, (buffer,), candidates),
    ensures
        final(buffer)@.description_set,
        final(buffer)@.pending.len() == 0,
        candidates@.len() == old(buffer)@.pending.len(),
        forall|i: int|
            0 <= i < candidates@.len() ==> {
                &&& (#[trigger] candidates@[i]).0@ == old(buffer)@.pending[i].0
                &&& candidates@[i].1 is Some <==> old(buffer)@.pending[i].1 is Some
                &&& candidates@[i].1 is Some ==> candidates@[i].1->0@ == old(
                    buffer,
                )@.pending[i].1->0
            },
{
    let views = candidate_views(candidates@);
    law_candidate_is_held_or_added(old(buffer)@, (Seq::empty(), None));
    assert forall|i: int| 0 <= i < candidates@.len() implies {
        &&& (#[trigger] candidates@[i]).0@ == old(buffer)@.pending[i].0
        &&& candidates@[i].1 is Some <==> old(buffer)@.pending[i].1 is Some
        &&& candidates@[i].1 is Some ==> candidates@[i].1->0@ == old(buffer)@.pending[i].1->0
    } by {
        assert(views[i] == old(buffer)@.pending[i]);
    }
}

/// An offer sets a connection up in the session that it names, with what was created for
/// it. While both sides offer, the side whose key is not the smaller ignores the offer of
/// the other.
pub proof fn law_browser_offer_call<P, C, W, E, F: Fn() -> Result<P, E>>(
    manager: &mut PeerConnectionManager<P, C, W>,
    peer: EndpointId,
    session_id: u64,
    create: &F,
    result: Result<(), E>,
)
    requires
        call_ensures(
            PeerConnectionManager::<P, C, W>::handle_offer::<E, F>,
            (manager, peer, session_id, create),
            result,
        ),
    ensures
        ({
            let offering = old(manager)@.peers.dom().contains(peer@) && old(
                manager,
            )@.peers[peer@].state == ConnectionState::Connecting;
            let ignored = offering && !key_less(old(manager)@.my_id, peer@);
            let after = final(manager)@.peers[peer@];
            &&& ignored ==> result is Ok && final(manager)@ == old(manager)@
            &&& !ignored && result is Ok ==> {
                &&& final(manager)@.peers.dom().contains(peer@)
                &&& create.ensures((), Ok(after.pc))
                &&& after.session_id == session_id
                &&& after.state == ConnectionState::Connecting
                &&& after.channel is None
                &&& after.pending_sends.len() == 0
                &&& after.outbox.len() == 0
            }
            &&& result matches Err(e) ==> {
                &&& create.ensures((), Err(e))
                &&& final(manager)@.peers == if offering {
                    old(manager)@.peers.remove(peer@)
                } else {
                    old(manager)@.peers
                }
            }
        }),
{
    let pre = old(manager)@;
    let offering = pre.peers.dom().contains(peer@) && pre.peers[peer@].state
        == ConnectionState::Connecting;
    if !(offering && !key_less(pre.my_id, peer@)) {
        let created = choose|created: Result<P, E>| #[trigger]
            create.ensures((), created) && (final(manager)@, result) == offer_outcome(
                pre,
                peer@,
                session_id,
                created,
            );
        law_browser_offer_sets_connection_up(pre, peer@, session_id, created);
    }
}

/// An answer and a candidate find the connection of the session that they name, and no
/// other.
pub proof fn law_browser_lookup_calls<P, C, W>(
    manager: &PeerConnectionManager<P, C, W>,
    peer: &EndpointId,
    session_id: u64,
    for_answer: Result<&P, PeerError>,
    for_candidate: Result<&P, PeerError>,
)
    requires
        call_ensures(
            PeerConnectionManager::<P, C, W>::handle_answer,
            (manager, peer, session_id),
            for_answer,
        ),
        call_ensures(
            PeerConnectionManager::<P, C, W>::handle_ice_candidate,
            (manager, peer, session_id),
            for_candidate,
        ),
    ensures
        ({
            let known = manager@.peers.dom().contains(peer@);
            let named = known && manager@.peers[peer@].session_id == session_id;
            &&& for_answer is Ok <==> named
            &&& for_candidate is Ok <==> named
            &&& named ==> *for_answer->Ok_0 == manager@.peers[peer@].pc
            &&& named ==> *for_candidate->Ok_0 == manager@.peers[peer@].pc
            &&& known && !named ==> for_answer->Err_0@ == PeerErrorView::SessionMismatch
            &&& known && !named ==> for_candidate->Err_0@ == PeerErrorView::SessionMismatch
            &&& !known ==> for_answer->Err_0@ == PeerErrorView::NoConnectionForAnswer
            &&& !known ==> for_candidate->Err_0@ == PeerErrorView::NoConnectionForCandidate
        }),
{
    law_browser_signaling_names_session(
        manager@,
        peer@,
        session_id,
        PeerErrorView::NoConnectionForAnswer,
    );
    law_browser_signaling_names_session(
        manager@,
        peer@,
        session_id,
        PeerErrorView::NoConnectionForCandidate,
    );
}

/// A close request ends the session that it names, and no other.
pub proof fn law_browser_close_call<P, C, W>(
    manager: &mut PeerConnectionManager<P, C, W>,
    peer: &EndpointId,
    session_id: u64,
    named: bool,
    other: Seq<u8>,
)
    requires
        call_ensures(
            PeerConnectionManager::<P, C, W>::handle_close,
            (manager, peer, session_id),
            named,
        ),
    ensures
        named <==> old(manager)@.peers.dom().contains(peer@) && old(
            manager,
        )@.peers[peer@].session_id == session_id,
        named ==> !final(manager)@.peers.dom().contains(peer@),
        !named ==> final(manager)@ == old(manager)@,
        other != peer@ ==> {
            &&& final(manager)@.peers.dom().contains(other) == old(
                manager,
            )@.peers.dom().contains(other)
            &&& final(manager)@.peers[other] == old(manager)@.peers[other]
        },
{
    law_browser_close_ends_named_session(old(manager)@, peer@, session_id);
}

/// A datagram that is sent goes out as it is over a connection; it waits, with its sender,
/// while one is being set up; and it starts a new session if there is none that could
/// carry it.
pub proof fn law_browser_send_call<P, C, W, E, F: Fn(EndpointId, u64) -> Result<(P, C), E>>(
    manager: &mut PeerConnectionManager<P, C, W>,
    peer: EndpointId,
    data: &[u8],
    waker: W,
    create: &F,
    result: Result<(), ConnectError<E>>,
)
    requires
        call_ensures(
            PeerConnectionManager::<P, C, W>::send::<E, F>,
            (manager, peer, data, waker, create),
            result,
        ),
    ensures
        ({
            let pre = old(manager)@;
            let post = final(manager)@;
            let known = pre.peers.dom().contains(peer@);
            let before = pre.peers[peer@];
            let after = post.peers[peer@];
            let blocked = Err::<(), _>(ConnectErrorView::<E>::Peer(PeerErrorView::WouldBlock));
            &&& known && before.state == ConnectionState::Connected ==> {
                &&& result is Ok <==> before.channel is Some
                &&& result is Ok ==> after.outbox == before.outbox.push(data@)
                &&& result is Ok ==> after.pending_sends == before.pending_sends
                &&& result is Err ==> post == pre
            }
            &&& known && before.state == ConnectionState::Connecting ==> {
                &&& connect_result(result) == blocked
                &&& after.pending_sends == before.pending_sends.push(data@)
                &&& after.outbox == before.outbox
                &&& after.waker == Some(waker)
            }
            &&& !known || before.state == ConnectionState::Closed ==> {
                &&& result is Err
                &&& post.next_session_id == (pre.next_session_id + 1) % 0x1_0000_0000_0000_0000
                &&& post.peers.dom().contains(peer@) ==> {
                    &&& connect_result(result) == blocked
                    &&& after.session_id == pre.next_session_id
                    &&& after.state == ConnectionState::Connecting
                    &&& after.pending_sends == seq![data@]
                    &&& after.outbox.len() == 0
                    &&& after.waker == Some(waker)
                    &&& after.channel is Some
                    &&& create.ensures(
                        (peer, pre.next_session_id),
                        Ok((after.pc, after.channel->0)),
                    )
                }
                &&& !post.peers.dom().contains(peer@) ==> connect_result(result) matches Err(
                    ConnectErrorView::Bind(_),
                )
            }
        }),
{
    let pre = old(manager)@;
    let post = final(manager)@;
    let said = connect_result(result);
    if !pre.peers.dom().contains(peer@) || pre.peers[peer@].state == ConnectionState::Closed {
        law_browser_send_starts_session(pre, peer, data@, waker, *create, post, said);
    } else if pre.peers[peer@].state == ConnectionState::Connecting {
        law_browser_send_waits(pre, peer, data@, waker, *create, post, said);
    } else {
        law_browser_send_goes_out(pre, peer, data@, waker, *create, post, said);
    }
}

/// An event does to the connection of its peer what it says: a channel that opens connects
/// it and lets out what waits, its loss closes it, and a message is delivered.
pub proof fn law_browser_event_call<P, C, W>(
    manager: &mut PeerConnectionManager<P, C, W>,
    peer: &EndpointId,
    event: EventPoll,
    remote: &mut Option<C>,
    again: bool,
)
    requires
        call_ensures(
            PeerConnectionManager::<P, C, W>::poll_step,
            (manager, peer, event, remote),
            again,
        ),
    ensures
        again <==> !(event@ is Ended) && !(event@ is Idle),
        !old(manager)@.peers.dom().contains(peer@) ==> final(manager)@ == old(manager)@
            && *final(remote) == *old(remote),
        old(manager)@.peers.dom().contains(peer@) ==> {
            let pre = old(manager)@;
            let post = final(manager)@;
            let before = pre.peers[peer@];
            let after = post.peers[peer@];
            match event@ {
                EventPollView::DataChannelOpen => {
                    &&& after.state == ConnectionState::Connected
                    &&& after.channel == if before.channel is Some {
                        before.channel
                    } else {
                        *old(remote)
                    }
                    &&& after.channel is Some ==> after.outbox == before.outbox
                        + before.pending_sends && after.pending_sends.len() == 0
                    &&& after.waker is None
                    &&& match before.waker {
                        Some(waker) => post.woken == pre.woken.push(waker),
                        None => post.woken == pre.woken,
                    }
                    &&& *final(remote) == if before.channel is Some {
                        *old(remote)
                    } else {
                        None
                    }
                },
                EventPollView::DataChannelMessage(data) => {
                    &&& post.datagrams == pre.datagrams.push((peer@, data))
                    &&& post.peers == pre.peers
                },
                EventPollView::DataChannelClose | EventPollView::Ended => {
                    &&& after.state == ConnectionState::Closed
                    &&& after.pending_sends == before.pending_sends
                    &&& after.outbox == before.outbox
                },
                EventPollView::IceConnectionStateChange(state) => if is_lost(state) {
                    after.state == ConnectionState::Closed
                } else {
                    post == pre
                },
                _ => post == pre,
            }
        },
{
    let pre = old(manager)@;
    let post = final(manager)@;
    if !pre.peers.dom().contains(peer@) {
        law_browser_other_events_change_nothing(pre, peer@, event@, *old(remote));
    } else {
        match event@ {
            EventPollView::DataChannelOpen => {
                law_browser_open_connects(pre, peer@, *old(remote));
            },
            EventPollView::DataChannelMessage(data) => {
                law_browser_message_is_delivered(pre, peer@, data, *old(remote));
                assert(post.datagrams =~= post.datagrams.drop_last().push(post.datagrams.last()));
            },
            EventPollView::DataChannelClose | EventPollView::Ended => {
                law_browser_loss_closes(pre, peer@, event@, *old(remote));
            },
            EventPollView::IceConnectionStateChange(state) => {
                if is_lost(state) {
                    law_browser_loss_closes(pre, peer@, event@, *old(remote));
                } else {
                    law_browser_other_events_change_nothing(pre, peer@, event@, *old(remote));
                }
            },
            _ => {
                law_browser_other_events_change_nothing(pre, peer@, event@, *old(remote));
            },
        }
    }
}

/// What is to go out to a peer is handed out once: all of it, in order, and none is left.
pub proof fn law_taking_outbox_empties<P, C, W>(
    manager: &mut PeerConnectionManager<P, C, W>,
    peer: &EndpointId,
    outbox: Vec<Bytes>,
)
    requires
        call_ensures(PeerConnectionManager::<P, C, W>::take_outbox, (manager, peer), outbox),
        old(manager)@.peers.dom().contains(peer@),
    ensures
        outbox@.len() == old(manager)@.peers[peer@].outbox.len(),
        forall|i: int|
            0 <= i < outbox@.len() ==> buffer_contents(#[trigger] outbox@[i]) == old(
                manager,
            )@.peers[peer@].outbox[i],
        final(manager)@.peers.dom() == old(manager)@.peers.dom(),
        final(manager)@.peers[peer@].outbox.len() == 0,
        final(manager)@.peers[peer@].pending_sends == old(manager)@.peers[peer@].pending_sends,
        final(manager)@.peers[peer@].state == old(manager)@.peers[peer@].state,
{
    let contents = buffers_contents(outbox@);
    assert forall|i: int| 0 <= i < outbox@.len() implies buffer_contents(#[trigger] outbox@[i])
        == old(manager)@.peers[peer@].outbox[i] by {
        assert(contents[i] == buffer_contents(outbox@[i]));
    }
    assert(final(manager)@.peers.dom() =~= old(manager)@.peers.dom());
}

} // verus!
