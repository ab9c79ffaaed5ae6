//! What whoever hands a transmit or signaling over can rely on.
//!
//! Each law speaks of one call: of what was there before and after it, of what was handed
//! in, and of what came back.

use std::time::Instant;

use vstd::prelude::*;

use crate::addr::{is_public_key, law_address_names_key, CustomAddr, EndpointId};
use crate::net::SocketAddr;
use crate::peer_connection::browser::PeerConnectionManager as BrowserManager;
use crate::peer_connection::effects::{
    law_candidate_reaches_session, law_close_ends_named_session, writes,
};
use crate::peer_connection::error::{connect_result, ConnectError};
use crate::peer_connection::native::PeerConnectionManager;
use crate::peer_connection::rtc::{candidate_error, Step};
use crate::peer_connection::ConnectionState;
use crate::signaling::SignalingEnvelope;
use crate::transport::browser::{
    browser_segments_sent, law_browser_transmit_goes_out, law_browser_transmit_waits,
};
use crate::transport::recv::{
    law_step_copies_datagram, RecvEvent, RecvEventView, RecvOutcome, RecvPoll, RecvStep,
    RecvStepView,
};
use crate::transport::send::{
    handed_to, is_cut, law_transmit_is_written, law_transmit_starts_session,
    law_transmit_waits_for_connection, segments, size_of_segments, QueuedPolicy, SendPoll,
};
use crate::transport::{
    law_signaled_candidate_reaches_session, law_signaling_is_dispatched, WebRtcEndpoint,
};

verus! {

/// The address is tagged as one of WebRTC and carries a public key.
pub open spec fn names_peer(dst: CustomAddr) -> bool {
    dst.id == 0x575254 && dst.data@.len() == 32 && is_public_key(dst.data@)
}

/// A transmit to an address that names no peer fails and changes nothing.
pub proof fn law_transmit_needs_peer<S, W: Clone, E, F: Fn() -> Result<(S, SocketAddr), E>>(
    manager: &mut PeerConnectionManager<S, W>,
    dst: &CustomAddr,
    contents: &[u8],
    segment_size: Option<usize>,
    waker: &W,
    now: Instant,
    bind: &F,
    policy: QueuedPolicy,
    outcome: SendPoll<E>,
)
    requires
        call_ensures(
            crate::transport::send::poll_send::<S, W, E, F>,
            (manager, dst, contents, segment_size, waker, now, bind, policy),
            outcome,
        ),
        !names_peer(*dst),
    ensures
        outcome@ is BadAddr,
        final(manager)@ == old(manager)@,
{
    law_address_names_key(dst.id, dst.data@);
}

/// A transmit to a connected peer is written to the peer's channel: as it is where no size
/// of segments was asked for, and in segments of that size where one was. It is written
/// whole, or up to where the channel refused.
pub proof fn law_transmit_call_writes<S, W: Clone, E, F: Fn() -> Result<(S, SocketAddr), E>>(
    manager: &mut PeerConnectionManager<S, W>,
    dst: &CustomAddr,
    contents: &[u8],
    segment_size: Option<usize>,
    waker: &W,
    now: Instant,
    bind: &F,
    policy: QueuedPolicy,
    outcome: SendPoll<E>,
)
    requires
        call_ensures(
            crate::transport::send::poll_send::<S, W, E, F>,
            (manager, dst, contents, segment_size, waker, now, bind, policy),
            outcome,
        ),
        segment_size matches Some(size) ==> size > 0,
        segment_size is None ==> contents@.len() > 0,
        names_peer(*dst),
        old(manager)@.peers.dom().contains(dst.data@),
        old(manager)@.peers[dst.data@].state == ConnectionState::Connected,
        old(manager)@.peers[dst.data@].channel is Some,
    ensures
        ({
            let before = old(manager)@.peers[dst.data@];
            let after = final(manager)@.peers[dst.data@];
            &&& outcome@ is Ready || outcome@ is Failed
            &&& segment_size is None ==> writes(after.trace) == writes(before.trace).push(
                (before.channel->0, contents@),
            )
            &&& exists|pieces: Seq<Seq<u8>>, m: int|
                {
                    &&& is_cut(pieces, contents@, segment_size)
                    &&& 0 <= m <= pieces.len()
                    &&& outcome@ is Ready ==> m == pieces.len()
                    &&& outcome@ is Failed ==> m > 0
                    &&& writes(after.trace) == writes(before.trace) + #[trigger] handed_to(
                        before.channel->0,
                        pieces.take(m),
                    )
                }
            &&& after.state == ConnectionState::Connected
            &&& after.session_id == before.session_id
            &&& final(manager)@.peers.dom() == old(manager)@.peers.dom()
            &&& final(manager)@.signaling == old(manager)@.signaling
        }),
{
    law_address_names_key(dst.id, dst.data@);
    law_transmit_is_written(
        old(manager)@,
        dst.data@,
        contents@,
        segment_size,
        *waker,
        now,
        *bind,
        policy,
        final(manager)@,
        outcome@,
    );
}

/// A transmit waits with its sender while the connection is being set up, and starts a
/// session where there is none: whole where what is queued counts as sent, and its first
/// segment where the sender will come again.
pub proof fn law_transmit_call_queues<S, W: Clone, E, F: Fn() -> Result<(S, SocketAddr), E>>(
    manager: &mut PeerConnectionManager<S, W>,
    dst: &CustomAddr,
    contents: &[u8],
    segment_size: Option<usize>,
    waker: &W,
    now: Instant,
    bind: &F,
    policy: QueuedPolicy,
    outcome: SendPoll<E>,
)
    requires
        call_ensures(
            crate::transport::send::poll_send::<S, W, E, F>,
            (manager, dst, contents, segment_size, waker, now, bind, policy),
            outcome,
        ),
        segment_size matches Some(size) ==> size > 0,
        contents@.len() > 0,
        names_peer(*dst),
        !old(manager)@.peers.dom().contains(dst.data@) || old(manager)@.peers[dst.data@].state
            != ConnectionState::Connected,
    ensures
        ({
            let waits = old(manager)@.peers.dom().contains(dst.data@) && old(
                manager,
            )@.peers[dst.data@].state == ConnectionState::Connecting;
            let before = if waits {
                old(manager)@.peers[dst.data@].pending_sends
            } else {
                Seq::empty()
            };
            let after = final(manager)@.peers[dst.data@];
            &&& waits ==> final(manager)@.peers.dom().contains(dst.data@)
            &&& !final(manager)@.peers.dom().contains(dst.data@) ==> outcome@ is Failed
            &&& final(manager)@.peers.dom().contains(dst.data@) ==> {
                &&& match policy {
                    QueuedPolicy::Accept => outcome@ is Ready,
                    QueuedPolicy::Wait => outcome@ is Pending,
                }
                &&& after.state == ConnectionState::Connecting
                &&& after.waker matches Some(kept)
                &&& cloned(*waker, kept)
                &&& exists|pieces: Seq<Seq<u8>>| #[trigger]
                    is_cut(pieces, contents@, segment_size) && after.pending_sends == before
                        + match policy {
                        QueuedPolicy::Accept => pieces,
                        QueuedPolicy::Wait => pieces.take(1),
                    }
            }
            &&& waits ==> final(manager)@.signaling == old(manager)@.signaling
            &&& !waits && final(manager)@.peers.dom().contains(dst.data@) ==> {
                &&& after.session_id == old(manager)@.next_session_id
                &&& final(manager)@.signaling.len() == old(manager)@.signaling.len() + 1
                &&& final(manager)@.signaling.last().peer == dst.data@
                &&& final(manager)@.signaling.last().msg is Offer
            }
        }),
{
    law_address_names_key(dst.id, dst.data@);
    let pre = old(manager)@;
    let post = final(manager)@;
    let key = dst.data@;
    if pre.peers.dom().contains(key) && pre.peers[key].state == ConnectionState::Connecting {
        law_transmit_waits_for_connection(
            pre,
            key,
            contents@,
            segment_size,
            *waker,
            now,
            *bind,
            policy,
            post,
            outcome@,
        );
    } else {
        law_transmit_starts_session(
            pre,
            key,
            contents@,
            segment_size,
            *waker,
            now,
            *bind,
            policy,
            post,
            outcome@,
        );
        if post.peers.dom().contains(key) {
            let pieces = choose|pieces: Seq<Seq<u8>>| #[trigger]
                is_cut(pieces, contents@, segment_size) && post.peers[key].pending_sends
                    == match policy {
                    QueuedPolicy::Accept => pieces,
                    QueuedPolicy::Wait => pieces.take(1),
                };
            assert(Seq::<Seq<u8>>::empty() + pieces =~= pieces);
            assert(Seq::<Seq<u8>>::empty() + pieces.take(1) =~= pieces.take(1));
        }
    }
}

/// In the browser, a transmit to an address that names no peer fails and changes nothing;
/// one to a connected peer goes out on the peer's channel, as it is where no size of
/// segments was asked for and in segments of that size where one was.
pub proof fn law_browser_transmit_call<
    P,
    C,
    W: Clone,
    E,
    F: Fn(EndpointId, u64) -> Result<(P, C), E>,
>(
    manager: &mut BrowserManager<P, C, W>,
    dst: &CustomAddr,
    contents: &[u8],
    segment_size: Option<usize>,
    waker: &W,
    create: &F,
    policy: QueuedPolicy,
    outcome: SendPoll<E>,
)
    requires
        call_ensures(
            crate::transport::browser::poll_send::<P, C, W, E, F>,
            (manager, dst, contents, segment_size, waker, create, policy),
            outcome,
        ),
        segment_size matches Some(size) ==> size > 0,
        segment_size is None ==> contents@.len() > 0,
    ensures
        !names_peer(*dst) ==> outcome@ is BadAddr && final(manager)@ == old(manager)@,
        names_peer(*dst) && old(manager)@.peers.dom().contains(dst.data@) && old(
            manager,
        )@.peers[dst.data@].state == ConnectionState::Connected && old(
            manager,
        )@.peers[dst.data@].channel is Some ==> {
            let before = old(manager)@.peers[dst.data@];
            let after = final(manager)@.peers[dst.data@];
            &&& outcome@ is Ready
            &&& segment_size is None ==> after.outbox == before.outbox.push(contents@)
            &&& exists|pieces: Seq<Seq<u8>>| #[trigger]
                is_cut(pieces, contents@, segment_size) && after.outbox == before.outbox + pieces
            &&& after.state == ConnectionState::Connected
            &&& after.pending_sends == before.pending_sends
            &&& final(manager)@.peers.dom() == old(manager)@.peers.dom()
        },
{
    law_address_names_key(dst.id, dst.data@);
    let pre = old(manager)@;
    let post = final(manager)@;
    if names_peer(*dst) && pre.peers.dom().contains(dst.data@) && pre.peers[dst.data@].state
        == ConnectionState::Connected && pre.peers[dst.data@].channel is Some {
        let peer = choose|peer: EndpointId|
            peer@ == dst.data@ && #[trigger] browser_segments_sent(
                pre,
                peer,
                segments(contents@, size_of_segments(contents@, segment_size)),
                *waker,
                *create,
                policy,
                post,
                outcome@,
            );
        law_browser_transmit_goes_out(
            pre,
            peer,
            contents@,
            segment_size,
            *waker,
            *create,
            policy,
            post,
            outcome@,
        );
    }
}

/// In the browser, a transmit waits with its sender while the connection is being set up,
/// and starts a session where there is none.
pub proof fn law_browser_transmit_call_queues<
    P,
    C,
    W: Clone,
    E,
    F: Fn(EndpointId, u64) -> Result<(P, C), E>,
>(
    manager: &mut BrowserManager<P, C, W>,
    dst: &CustomAddr,
    contents: &[u8],
    segment_size: Option<usize>,
    waker: &W,
    create: &F,
    policy: QueuedPolicy,
    outcome: SendPoll<E>,
)
    requires
        call_ensures(
            crate::transport::browser::poll_send::<P, C, W, E, F>,
            (manager, dst, contents, segment_size, waker, create, policy),
            outcome,
        ),
        segment_size matches Some(size) ==> size > 0,
        contents@.len() > 0,
        names_peer(*dst),
        !old(manager)@.peers.dom().contains(dst.data@) || old(manager)@.peers[dst.data@].state
            != ConnectionState::Connected,
    ensures
        ({
            let waits = old(manager)@.peers.dom().contains(dst.data@) && old(
                manager,
            )@.peers[dst.data@].state == ConnectionState::Connecting;
            let before = if waits {
                old(manager)@.peers[dst.data@].pending_sends
            } else {
                Seq::empty()
            };
            let after = final(manager)@.peers[dst.data@];
            &&& waits ==> final(manager)@.peers.dom().contains(dst.data@)
            &&& !final(manager)@.peers.dom().contains(dst.data@) ==> outcome@ is Failed
            &&& final(manager)@.peers.dom().contains(dst.data@) ==> {
                &&& match policy {
                    QueuedPolicy::Accept => outcome@ is Ready,
                    QueuedPolicy::Wait => outcome@ is Pending,
                }
                &&& after.state == ConnectionState::Connecting
                &&& after.waker matches Some(kept)
                &&& cloned(*waker, kept)
                &&& exists|pieces: Seq<Seq<u8>>| #[trigger]
                    is_cut(pieces, contents@, segment_size) && after.pending_sends == before
                        + match policy {
                        QueuedPolicy::Accept => pieces,
                        QueuedPolicy::Wait => pieces.take(1),
                    }
            }
            &&& final(manager)@.next_session_id == if waits {
                old(manager)@.next_session_id as int
            } else {
                (old(manager)@.next_session_id + 1) % 0x1_0000_0000_0000_0000
            }
        }),
{
    law_address_names_key(dst.id, dst.data@);
    let pre = old(manager)@;
    let post = final(manager)@;
    let peer = choose|peer: EndpointId|
        peer@ == dst.data@ && #[trigger] browser_segments_sent(
            pre,
            peer,
            segments(contents@, size_of_segments(contents@, segment_size)),
            *waker,
            *create,
            policy,
            post,
            outcome@,
        );
    law_browser_transmit_waits(
        pre,
        peer,
        contents@,
        segment_size,
        *waker,
        *create,
        policy,
        post,
        outcome@,
    );
}

/// A candidate that is signaled to an endpoint reaches the session that it names, as it came,
/// if it can be read and names the current one; otherwise nothing changes.
pub proof fn law_signaled_candidate_call<S, W, E, F: Fn() -> Result<(S, SocketAddr), E>>(
    endpoint: &mut WebRtcEndpoint<S, W>,
    envelope: &SignalingEnvelope,
    now: Instant,
    bind: &F,
    result: Result<(), ConnectError<E>>,
)
    requires
        call_ensures(
            WebRtcEndpoint::<S, W>::handle_signaling::<E, F>,
            (endpoint, envelope, now, bind),
            result,
        ),
        envelope@.msg is IceCandidate,
    ensures
        ({
            let peer = envelope@.peer;
            let session_id = envelope@.msg->IceCandidate_session_id;
            let candidate = envelope@.msg->candidate;
            let before = old(endpoint).manager@;
            let after = final(endpoint).manager@;
            &&& result is Ok <==> {
                &&& before.peers.dom().contains(peer)
                &&& before.peers[peer].session_id == session_id
                &&& candidate_error(candidate) is None
            }
            &&& result is Ok ==> after.peers[peer].trace == before.peers[peer].trace.push(
                Step::RemoteCandidate { text: candidate },
            )
            &&& result is Err ==> after == before
        }),
{
    let peer = envelope@.peer;
    let session_id = envelope@.msg->IceCandidate_session_id;
    let candidate = envelope@.msg->candidate;
    let said = connect_result(result);
    law_signaled_candidate_reaches_session(
        old(endpoint).manager@,
        peer,
        session_id,
        candidate,
        envelope@.msg->sdp_mid,
        now,
        *bind,
        final(endpoint).manager@,
        said,
    );
    law_signaling_is_dispatched(
        old(endpoint).manager@,
        peer,
        session_id,
        candidate,
        envelope@.msg->sdp_mid,
        now,
        *bind,
        final(endpoint).manager@,
        said,
    );
    law_candidate_reaches_session(old(endpoint).manager@, peer, session_id, candidate);
}

/// A close request that is signaled to an endpoint ends the session that it names, and no
/// other.
pub proof fn law_signaled_close_call<S, W, E, F: Fn() -> Result<(S, SocketAddr), E>>(
    endpoint: &mut WebRtcEndpoint<S, W>,
    envelope: &SignalingEnvelope,
    now: Instant,
    bind: &F,
    result: Result<(), ConnectError<E>>,
    other: Seq<u8>,
)
    requires
        call_ensures(
            WebRtcEndpoint::<S, W>::handle_signaling::<E, F>,
            (endpoint, envelope, now, bind),
            result,
        ),
        envelope@.msg is Close,
    ensures
        ({
            let peer = envelope@.peer;
            let before = old(endpoint).manager@;
            let after = final(endpoint).manager@;
            let named = before.peers.dom().contains(peer) && before.peers[peer].session_id
                == envelope@.msg->Close_session_id;
            &&& result is Ok
            &&& named ==> !after.peers.dom().contains(peer)
            &&& !named ==> after == before
            &&& other != peer ==> {
                &&& after.peers.dom().contains(other) == before.peers.dom().contains(other)
                &&& after.peers[other] == before.peers[other]
            }
        }),
{
    law_signaling_is_dispatched(
        old(endpoint).manager@,
        envelope@.peer,
        envelope@.msg->Close_session_id,
        Seq::empty(),
        None,
        now,
        *bind,
        final(endpoint).manager@,
        connect_result(result),
    );
    law_close_ends_named_session(
        old(endpoint).manager@,
        envelope@.peer,
        envelope@.msg->Close_session_id,
        other,
    );
}

/// A poll for datagrams starts with all of its buffers empty; without a buffer it is over at
/// once. It ends with the number of those that were filled, or waits if none was.
pub proof fn law_receive_calls(
    slots: usize,
    started: Result<RecvPoll, RecvOutcome>,
    poll: &RecvPoll,
    outcome: RecvOutcome,
)
    requires
        call_ensures(RecvPoll::start, (slots,), started),
        call_ensures(RecvPoll::finish, (poll,), outcome),
        poll.filled() <= usize::MAX,
    ensures
        slots == 0 ==> started == Err::<RecvPoll, RecvOutcome>(RecvOutcome::Ready(0)),
        slots > 0 ==> {
            &&& started is Ok
            &&& started->Ok_0.slots() == slots
            &&& started->Ok_0.filled() == 0
        },
        outcome == if poll.filled() == 0 {
            RecvOutcome::Pending
        } else {
            RecvOutcome::Ready(poll.filled() as usize)
        },
{
}

/// A datagram that fits is copied to the start of the next buffer, whose rest stays as it
/// was, and is told with its length and its sender. One that does not fit ends the poll,
/// and the buffer stays as it was.
pub proof fn law_receive_step_call(
    poll: &mut RecvPoll,
    event: RecvEvent,
    buf: &mut [u8],
    step: RecvStep,
)
    requires
        call_ensures(RecvPoll::step, (poll, event, buf), step),
        old(poll).filled() <= usize::MAX,
    ensures
        ({
            let ended = RecvStepView::Done(
                if old(poll).filled() == 0 {
                    RecvOutcome::Pending
                } else {
                    RecvOutcome::Ready(old(poll).filled() as usize)
                },
            );
            let unchanged = final(poll).filled() == old(poll).filled() && final(buf)@ == old(buf)@;
            match event@ {
                RecvEventView::Datagram(from, data) => if data.len() <= old(buf)@.len() {
                    &&& final(poll).filled() == old(poll).filled() + 1
                    &&& final(buf)@.take(data.len() as int) == data
                    &&& final(buf)@.skip(data.len() as int) == old(buf)@.skip(data.len() as int)
                    &&& step@ matches RecvStepView::Filled(slot)
                    &&& slot.len == data.len()
                    &&& slot.transport == 0x575254
                    &&& slot.source == from
                } else {
                    unchanged && step@ == ended
                },
                RecvEventView::Idle => unchanged && step@ == ended,
                RecvEventView::Closed => unchanged && step@ == RecvStepView::Done(
                    RecvOutcome::Closed,
                ),
            }
        }),
{
    let filled = old(poll).filled();
    match event@ {
        RecvEventView::Datagram(from, data) => {
            law_step_copies_datagram(filled, from, data, old(buf)@);
        },
        _ => {
            law_step_copies_datagram(filled, Seq::empty(), Seq::empty(), old(buf)@);
        },
    }
}

} // verus!
