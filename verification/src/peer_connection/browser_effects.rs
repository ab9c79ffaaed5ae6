//! What each operation of the browser's manager brings about.

use vstd::prelude::*;

use crate::addr::{key_less, EndpointId};
use crate::peer_connection::browser::{
    arrived, buffer_opened, closed, collides, event_outcome, is_lost, named_peer, offer_outcome,
    send_outcome, takes_remote, unconnected_send_outcome, BrowserPeerView, BrowserView,
    CandidateBufferView, EventPollView,
};
use crate::peer_connection::error::{ConnectErrorView, PeerErrorView};
use crate::peer_connection::model::yields;
use crate::peer_connection::ConnectionState;
use crate::text::{lowered, occurs_in, stands_at};

verus! {

// ---------------------------------------------------------------------------
// Sending
// ---------------------------------------------------------------------------

/// Over a connection with a channel, a datagram goes out as it is, behind those that are
/// on their way already, and nothing else changes.
pub proof fn law_browser_send_goes_out<P, C, W, E, F: Fn(EndpointId, u64) -> Result<(P, C), E>>(
    pre: BrowserView<P, C, W>,
    peer: EndpointId,
    data: Seq<u8>,
    waker: W,
    create: F,
    post: BrowserView<P, C, W>,
    result: Result<(), ConnectErrorView<E>>,
)
    requires
        send_outcome(pre, peer, data, waker, create, post, result),
        pre.peers.dom().contains(peer@),
        pre.peers[peer@].state == ConnectionState::Connected,
    ensures
        pre.peers[peer@].channel is Some ==> {
            &&& result is Ok
            &&& post.peers.dom() == pre.peers.dom()
            &&& post.peers[peer@].outbox == pre.peers[peer@].outbox.push(data)
            &&& post.peers[peer@] == (BrowserPeerView {
                outbox: post.peers[peer@].outbox,
                ..pre.peers[peer@]
            })
            &&& post == (BrowserView { peers: post.peers, ..pre })
        },
        pre.peers[peer@].channel is None ==> {
            &&& result == Err::<(), _>(ConnectErrorView::<E>::Peer(PeerErrorView::NoDataChannel))
            &&& post == pre
        },
{
    assert(post.peers.dom() =~= pre.peers.dom());
}

/// While a connection is being set up, a datagram waits behind those that wait already,
/// and its sender is the one to be woken.
pub proof fn law_browser_send_waits<P, C, W, E, F: Fn(EndpointId, u64) -> Result<(P, C), E>>(
    pre: BrowserView<P, C, W>,
    peer: EndpointId,
    data: Seq<u8>,
    waker: W,
    create: F,
    post: BrowserView<P, C, W>,
    result: Result<(), ConnectErrorView<E>>,
)
    requires
        send_outcome(pre, peer, data, waker, create, post, result),
        pre.peers.dom().contains(peer@),
        pre.peers[peer@].state == ConnectionState::Connecting,
    ensures
        result == Err::<(), _>(ConnectErrorView::<E>::Peer(PeerErrorView::WouldBlock)),
        post.peers.dom() == pre.peers.dom(),
        post.peers[peer@].pending_sends == pre.peers[peer@].pending_sends.push(data),
        post.peers[peer@].waker == Some(waker),
        post.peers[peer@] == (BrowserPeerView {
            pending_sends: post.peers[peer@].pending_sends,
            waker: post.peers[peer@].waker,
            ..pre.peers[peer@]
        }),
        post == (BrowserView { peers: post.peers, ..pre }),
{
    assert(post.peers.dom() =~= pre.peers.dom());
}

/// A datagram to a peer without a connection, or with a closed one, asks for a new one in
/// the session that is due, and waits for it with its sender. The session id is used up
/// even if no connection could be created.
pub proof fn law_browser_send_starts_session<
    P,
    C,
    W,
    E,
    F: Fn(EndpointId, u64) -> Result<(P, C), E>,
>(
    pre: BrowserView<P, C, W>,
    peer: EndpointId,
    data: Seq<u8>,
    waker: W,
    create: F,
    post: BrowserView<P, C, W>,
    result: Result<(), ConnectErrorView<E>>,
)
    requires
        send_outcome(pre, peer, data, waker, create, post, result),
        !pre.peers.dom().contains(peer@) || pre.peers[peer@].state == ConnectionState::Closed,
    ensures
        post.next_session_id == (pre.next_session_id + 1) % 0x1_0000_0000_0000_0000,
        post.my_id == pre.my_id,
        post.datagrams == pre.datagrams,
        post.woken == pre.woken,
        exists|created: Result<(P, C), E>| #[trigger]
            create.ensures((peer, pre.next_session_id), created) && (match created {
                Err(e) => {
                    &&& result == Err::<(), _>(ConnectErrorView::Bind(e))
                    &&& post.peers == pre.peers.remove(peer@)
                },
                Ok((pc, channel)) => {
                    &&& result == Err::<(), _>(
                        ConnectErrorView::<E>::Peer(PeerErrorView::WouldBlock),
                    )
                    &&& post.peers == pre.peers.insert(
                        peer@,
                        BrowserPeerView {
                            pc,
                            channel: Some(channel),
                            session_id: pre.next_session_id,
                            state: ConnectionState::Connecting,
                            waker: Some(waker),
                            pending_sends: seq![data],
                            outbox: Seq::empty(),
                        },
                    )
                },
            }),
{
    let created = choose|created: Result<(P, C), E>| #[trigger]
        create.ensures((peer, pre.next_session_id), created) && (post, result)
            == unconnected_send_outcome(
            pre,
            peer@,
            data,
            waker,
            created,
        );
    if let Ok((pc, channel)) = created {
        assert(post.peers[peer@].pending_sends =~= seq![data]);
        assert(post.peers =~= pre.peers.insert(
            peer@,
            BrowserPeerView {
                pc,
                channel: Some(channel),
                session_id: pre.next_session_id,
                state: ConnectionState::Connecting,
                waker: Some(waker),
                pending_sends: seq![data],
                outbox: Seq::empty(),
            },
        ));
    }
}

// ---------------------------------------------------------------------------
// Signaling
// ---------------------------------------------------------------------------

/// An offer collides exactly if a connection to the peer is being set up, and then the
/// side with the smaller key yields.
pub proof fn law_browser_collision<P, C, W>(m: BrowserView<P, C, W>, peer: Seq<u8>)
    ensures
        collides(m, peer) <==> m.peers.dom().contains(peer) && m.peers[peer].state
            == ConnectionState::Connecting,
        yields(m.my_id, peer) <==> key_less(m.my_id, peer),
{
}

/// An offer that is taken sets a connection up in the session that it names, without a
/// channel and with nothing queued, in place of any other to the peer. If none could be
/// created, an attempt of ours that yielded is gone, and any other connection stays.
pub proof fn law_browser_offer_sets_connection_up<P, C, W, E>(
    pre: BrowserView<P, C, W>,
    peer: Seq<u8>,
    session_id: u64,
    created: Result<P, E>,
)
    ensures
        ({
            let (post, result) = offer_outcome(pre, peer, session_id, created);
            &&& post == (BrowserView { peers: post.peers, ..pre })
            &&& match created {
                Ok(pc) => {
                    &&& result is Ok
                    &&& post.peers == pre.peers.insert(
                        peer,
                        BrowserPeerView {
                            pc,
                            channel: None,
                            session_id,
                            state: ConnectionState::Connecting,
                            waker: None,
                            pending_sends: Seq::empty(),
                            outbox: Seq::empty(),
                        },
                    )
                },
                Err(e) => {
                    &&& result == Err::<(), E>(e)
                    &&& post.peers == if pre.peers.dom().contains(peer) && pre.peers[peer].state
                        == ConnectionState::Connecting {
                        pre.peers.remove(peer)
                    } else {
                        pre.peers
                    }
                },
            }
        }),
{
    let (post, result) = offer_outcome(pre, peer, session_id, created);
    if let Ok(pc) = created {
        assert(post.peers =~= pre.peers.insert(
            peer,
            BrowserPeerView {
                pc,
                channel: None,
                session_id,
                state: ConnectionState::Connecting,
                waker: None,
                pending_sends: Seq::empty(),
                outbox: Seq::empty(),
            },
        ));
    }
}

/// Answers and candidates reach the connection of the session that they name, and no
/// other.
pub proof fn law_browser_signaling_names_session<P, C, W>(
    m: BrowserView<P, C, W>,
    peer: Seq<u8>,
    session_id: u64,
    missing: PeerErrorView,
)
    ensures
        m.peers.dom().contains(peer) && m.peers[peer].session_id == session_id ==> named_peer(
            m,
            peer,
            session_id,
            missing,
        ) == Ok::<P, PeerErrorView>(m.peers[peer].pc),
        m.peers.dom().contains(peer) && m.peers[peer].session_id != session_id ==> named_peer(
            m,
            peer,
            session_id,
            missing,
        ) == Err::<P, _>(PeerErrorView::SessionMismatch),
        !m.peers.dom().contains(peer) ==> named_peer(m, peer, session_id, missing) == Err::<P, _>(
            missing,
        ),
{
}

/// A close request ends the session that it names, and only that one.
pub proof fn law_browser_close_ends_named_session<P, C, W>(
    pre: BrowserView<P, C, W>,
    peer: Seq<u8>,
    session_id: u64,
)
    ensures
        ({
            let post = closed(pre, peer, session_id);
            let named = pre.peers.dom().contains(peer) && pre.peers[peer].session_id == session_id;
            &&& named ==> post == (BrowserView { peers: pre.peers.remove(peer), ..pre })
            &&& !named ==> post == pre
        }),
{
}

/// A remote candidate is added at once if the remote description is set, and is held back
/// behind the others if it is not; setting the description hands all of them out.
pub proof fn law_candidate_is_held_or_added(
    buffer: CandidateBufferView,
    candidate: (Seq<char>, Option<Seq<char>>),
)
    ensures
        buffer.description_set ==> arrived(buffer, seq![candidate]) == (buffer, seq![candidate]),
        !buffer.description_set ==> {
            let (after, now) = arrived(buffer, seq![candidate]);
            &&& now.len() == 0
            &&& !after.description_set
            &&& after.pending == buffer.pending.push(candidate)
        },
        buffer_opened(buffer).0.description_set,
        buffer_opened(buffer).0.pending.len() == 0,
        buffer_opened(buffer).1 == buffer.pending,
{
    assert(buffer.pending + seq![candidate] =~= buffer.pending.push(candidate));
}

// ---------------------------------------------------------------------------
// Events
// ---------------------------------------------------------------------------

/// When the data channel of a peer opens, the connection is connected over the channel
/// that was created here, or else over the one of the remote. What waited goes out over
/// it in order, once there is one, and the sender that waited is woken.
pub proof fn law_browser_open_connects<P, C, W>(
    pre: BrowserView<P, C, W>,
    peer: Seq<u8>,
    remote: Option<C>,
)
    requires
        pre.peers.dom().contains(peer),
    ensures
        ({
            let post = event_outcome(pre, peer, EventPollView::DataChannelOpen, remote);
            let before = pre.peers[peer];
            let after = post.peers[peer];
            &&& post.peers.dom() == pre.peers.dom()
            &&& after.state == ConnectionState::Connected
            &&& after.channel == if before.channel is Some {
                before.channel
            } else {
                remote
            }
            &&& after.waker is None
            &&& after.pc == before.pc
            &&& after.session_id == before.session_id
            &&& match before.waker {
                Some(waker) => post.woken == pre.woken.push(waker),
                None => post.woken == pre.woken,
            }
            &&& after.channel is Some ==> {
                &&& after.outbox == before.outbox + before.pending_sends
                &&& after.pending_sends.len() == 0
            }
            &&& after.channel is None ==> {
                &&& after.outbox == before.outbox
                &&& after.pending_sends == before.pending_sends
            }
            &&& post == (BrowserView { peers: post.peers, woken: post.woken, ..pre })
            &&& takes_remote(pre, peer, EventPollView::DataChannelOpen) <==> before.channel is None
        }),
{
    let post = event_outcome(pre, peer, EventPollView::DataChannelOpen, remote);
    assert(post.peers.dom() =~= pre.peers.dom());
}

/// A connection whose channel closed, whose callbacks ended, or whose peer was lost is
/// closed, and keeps all else; what the remote channel holds is left alone.
pub proof fn law_browser_loss_closes<P, C, W>(
    pre: BrowserView<P, C, W>,
    peer: Seq<u8>,
    event: EventPollView,
    remote: Option<C>,
)
    requires
        pre.peers.dom().contains(peer),
        event is DataChannelClose || event is Ended || (event matches
            EventPollView::IceConnectionStateChange(state) && is_lost(state)),
    ensures
        event_outcome(pre, peer, event, remote) == (BrowserView {
            peers: pre.peers.insert(
                peer,
                BrowserPeerView { state: ConnectionState::Closed, ..pre.peers[peer] },
            ),
            ..pre
        }),
        !takes_remote(pre, peer, event),
{
}

/// Once a connection is closed, the next datagram to the peer asks for a new one, in a
/// session of its own.
pub proof fn law_browser_send_after_loss_reconnects<
    P,
    C,
    W,
    E,
    F: Fn(EndpointId, u64) -> Result<(P, C), E>,
>(
    pre: BrowserView<P, C, W>,
    peer: EndpointId,
    event: EventPollView,
    remote: Option<C>,
    data: Seq<u8>,
    waker: W,
    create: F,
    post: BrowserView<P, C, W>,
    result: Result<(), ConnectErrorView<E>>,
)
    requires
        pre.peers.dom().contains(peer@),
        event is DataChannelClose || event is Ended || (event matches
            EventPollView::IceConnectionStateChange(state) && is_lost(state)),
        send_outcome(
            event_outcome(pre, peer@, event, remote),
            peer,
            data,
            waker,
            create,
            post,
            result,
        ),
    ensures
        result is Err,
        post.peers.dom().contains(peer@) ==> {
            &&& post.peers[peer@].state == ConnectionState::Connecting
            &&& post.peers[peer@].session_id == pre.next_session_id
            &&& post.peers[peer@].pending_sends == seq![data]
        },
        !post.peers.dom().contains(peer@) ==> result matches Err(ConnectErrorView::Bind(_)),
{
    law_browser_send_starts_session(
        event_outcome(pre, peer@, event, remote),
        peer,
        data,
        waker,
        create,
        post,
        result,
    );
}

/// A message that arrives is delivered as it is, with the peer that it came from, behind
/// what was delivered before; the connections are as they were.
pub proof fn law_browser_message_is_delivered<P, C, W>(
    pre: BrowserView<P, C, W>,
    peer: Seq<u8>,
    data: Seq<u8>,
    remote: Option<C>,
)
    requires
        pre.peers.dom().contains(peer),
    ensures
        ({
            let post = event_outcome(pre, peer, EventPollView::DataChannelMessage(data), remote);
            &&& post.datagrams.len() == pre.datagrams.len() + 1
            &&& post.datagrams.drop_last() == pre.datagrams
            &&& post.datagrams.last() == (peer, data)
            &&& post == (BrowserView { datagrams: post.datagrams, ..pre })
        }),
{
    let post = event_outcome(pre, peer, EventPollView::DataChannelMessage(data), remote);
    assert(post.datagrams.drop_last() =~= pre.datagrams);
}

/// Gathering candidates, ICE states that do not end a connection, and an empty queue
/// change nothing, nor does any event of a peer without a connection.
pub proof fn law_browser_other_events_change_nothing<P, C, W>(
    pre: BrowserView<P, C, W>,
    peer: Seq<u8>,
    event: EventPollView,
    remote: Option<C>,
)
    requires
        !pre.peers.dom().contains(peer) || event is IceCandidate || event is IceGatheringComplete
            || event is Idle || (event matches EventPollView::IceConnectionStateChange(state)
            && !is_lost(state)),
    ensures
        event_outcome(pre, peer, event, remote) == pre,
        !takes_remote(pre, peer, event),
{
}

/// A connection is lost in every state whose name holds "failed" or "disconnected",
/// however it is capitalised and whatever stands around it, and in no other.
pub proof fn law_lost_states(before: Seq<char>, name: Seq<char>, after: Seq<char>)
    ensures
        lowered(name) == "failed"@ || lowered(name) == "disconnected"@ ==> is_lost(
            before + name + after,
        ),
        is_lost(name) ==> exists|i: int|
            #![trigger name.subrange(i, i + 6)]
            #![trigger name.subrange(i, i + 12)]
            (0 <= i && i + 6 <= name.len() && lowered(name.subrange(i, i + 6)) == "failed"@) || (0
                <= i && i + 12 <= name.len() && lowered(name.subrange(i, i + 12))
                == "disconnected"@),
{
    reveal_strlit("failed");
    reveal_strlit("disconnected");
    let state = before + name + after;
    let low = lowered(state);
    if lowered(name) == "failed"@ || lowered(name) == "disconnected"@ {
        let i = before.len() as int;
        assert(name.len() == lowered(name).len());
        assert(low.subrange(i, i + name.len()) =~= lowered(name));
        assert(stands_at(low, lowered(name), i));
    }
    if is_lost(name) {
        let all = lowered(name);
        if occurs_in(all, "failed"@) {
            let i = choose|i: int| stands_at(all, "failed"@, i);
            assert(lowered(name.subrange(i, i + 6)) =~= all.subrange(i, i + 6));
        } else {
            let i = choose|i: int| stands_at(all, "disconnected"@, i);
            assert(lowered(name.subrange(i, i + 12)) =~= all.subrange(i, i + 12));
        }
    }
}

} // verus!
