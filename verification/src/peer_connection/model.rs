//! What managing peer connections means.
//!
//! The state of a manager as a value, and what each operation makes of it.

use std::time::Instant;

use bytes::Bytes;
use str0m::channel::ChannelId;
use str0m::net::Transmit;
use vstd::prelude::*;

use crate::addr::{key_less, EndpointId};
use crate::net::{SocketAddr, SocketAddrView};
use crate::payload::buffer_contents;
use crate::peer_connection::error::{ConnectErrorView, PeerErrorView};
use crate::peer_connection::flush::{events_in, is_drain, is_flush, sent_in};
use crate::peer_connection::rtc::{
    candidate_error, data_only, is_answer, is_host_address, is_offer, names_host, IceState,
    RtcEvent, RtcEventView, Step, WriteOutcomeView,
};
use crate::peer_connection::{ConnectionState, DATA_CHANNEL_LABEL};
use crate::signaling::{SignalingEnvelope, SignalingEnvelopeView, SignalingMsgView};

verus! {

/// What is known of a peer connection.
#[verifier::ext_equal]
pub struct PeerView<S, W> {
    /// The calls made on the session.
    pub trace: Seq<Step>,
    /// The socket.
    pub socket: S,
    /// Identifies the session in signaling.
    pub session_id: u64,
    /// The data channel, once opened.
    pub channel: Option<ChannelId>,
    /// Current connection state.
    pub state: ConnectionState,
    /// Whom to wake when the connection becomes ready.
    pub waker: Option<W>,
    /// Datagrams queued while the connection is being established.
    pub pending_sends: Seq<Seq<u8>>,
    /// The text of the offer that awaits an answer.
    pub pending_offer: Option<Seq<char>>,
    /// Datagrams to be sent from the socket.
    pub outbox: Seq<Transmit>,
    /// Events to be handled by the next poll.
    pub deferred: Seq<RtcEventView>,
}

/// What is known of a manager.
#[verifier::ext_equal]
pub struct ManagerView<S, W> {
    /// The local identity.
    pub my_id: Seq<u8>,
    /// The connection to each peer.
    pub peers: Map<Seq<u8>, PeerView<S, W>>,
    /// The id of the next session that is initiated here.
    pub next_session_id: u64,
    /// Signaling messages to be sent.
    pub signaling: Seq<SignalingEnvelopeView>,
    /// Datagrams that arrived, each with the peer that it came from.
    pub datagrams: Seq<(Seq<u8>, Seq<u8>)>,
    /// Senders to be woken.
    pub woken: Seq<W>,
}

/// What each envelope of a sequence says.
pub open spec fn envelope_views(envelopes: Seq<SignalingEnvelope>) -> Seq<SignalingEnvelopeView> {
    envelopes.map_values(|envelope: SignalingEnvelope| envelope@)
}

/// The peer and bytes of each datagram of a sequence.
pub open spec fn datagram_views(datagrams: Seq<(EndpointId, Bytes)>) -> Seq<(Seq<u8>, Seq<u8>)> {
    datagrams.map_values(|datagram: (EndpointId, Bytes)| (datagram.0@, buffer_contents(datagram.1)))
}

/// The session was asked for the offer with this text.
pub open spec fn has_offered(trace: Seq<Step>, sdp: Seq<char>) -> bool {
    exists|i: int| 0 <= i < trace.len() && #[trigger] trace[i] == offering(sdp)
}

/// A connected peer has its data channel, and nothing is queued for it. An offer that
/// awaits its answer is one that this session made.
pub open spec fn peer_wf<S, W>(peer: PeerView<S, W>) -> bool {
    &&& peer.state == ConnectionState::Connected ==> {
        &&& peer.channel is Some
        &&& peer.pending_sends.len() == 0
    }
    &&& peer.pending_offer matches Some(sdp) ==> has_offered(peer.trace, sdp)
}

/// Every peer is consistent.
pub open spec fn manager_wf<S, W>(manager: ManagerView<S, W>) -> bool {
    forall|key: Seq<u8>| #[trigger]
        manager.peers.dom().contains(key) ==> peer_wf(manager.peers[key])
}

// ---------------------------------------------------------------------------
// Setting a connection up
// ---------------------------------------------------------------------------

/// A manager without connections, none of whose session ids was handed out.
pub open spec fn fresh_manager<S, W>(my_id: Seq<u8>) -> ManagerView<S, W> {
    ManagerView {
        my_id,
        peers: Map::empty(),
        next_session_id: 0,
        signaling: Seq::empty(),
        datagrams: Seq::empty(),
        woken: Seq::empty(),
    }
}

/// The session id that follows `id`.
pub open spec fn following_id(id: u64) -> u64 {
    if id == u64::MAX {
        0
    } else {
        (id + 1) as u64
    }
}

/// The calls that open a session: it is built for data channels only, and the
/// local address becomes a host candidate if it can be one.
pub open spec fn opening(at: Instant, addr: SocketAddrView) -> Seq<Step> {
    let built = seq![Step::Built { ice_lite: false, at }];
    if is_host_address(addr) {
        built.push(Step::LocalCandidate { addr })
    } else {
        built
    }
}

/// The call that creates the unordered channel without retransmits.
pub open spec fn offering(sdp: Seq<char>) -> Step {
    Step::Offered { label: DATA_CHANNEL_LABEL@, ordered: false, max_retransmits: 0, sdp }
}

/// A connection that was just set up.
pub open spec fn fresh_peer<S, W>(
    socket: S,
    session_id: u64,
    trace: Seq<Step>,
    pending_offer: Option<Seq<char>>,
) -> PeerView<S, W> {
    PeerView {
        trace,
        socket,
        session_id,
        channel: None,
        state: ConnectionState::Connecting,
        waker: None,
        pending_sends: Seq::empty(),
        pending_offer,
        outbox: Seq::empty(),
        deferred: Seq::empty(),
    }
}

/// A session id was used up.
pub open spec fn id_spent<S, W>(m: ManagerView<S, W>) -> ManagerView<S, W> {
    ManagerView { next_session_id: following_id(m.next_session_id), ..m }
}

/// The connection to a peer was dropped.
pub open spec fn dropped<S, W>(m: ManagerView<S, W>, peer: Seq<u8>) -> ManagerView<S, W> {
    ManagerView { peers: m.peers.remove(peer), ..m }
}

/// The connection to a peer was replaced.
pub open spec fn with_peer<S, W>(
    m: ManagerView<S, W>,
    peer: Seq<u8>,
    connection: PeerView<S, W>,
) -> ManagerView<S, W> {
    ManagerView { peers: m.peers.insert(peer, connection), ..m }
}

/// A connection to a peer was initiated: a session id is used up, the offer is
/// sent, and the connection awaits the answer.
pub open spec fn initiated<S, W>(
    m: ManagerView<S, W>,
    peer: Seq<u8>,
    at: Instant,
    socket: S,
    addr: SocketAddrView,
    sdp: Seq<char>,
) -> ManagerView<S, W> {
    let session_id = m.next_session_id;
    ManagerView {
        next_session_id: following_id(session_id),
        peers: m.peers.insert(
            peer,
            fresh_peer(socket, session_id, opening(at, addr).push(offering(sdp)), Some(sdp)),
        ),
        signaling: m.signaling.push(
            SignalingEnvelopeView { peer, msg: SignalingMsgView::Offer { session_id, sdp } },
        ),
        ..m
    }
}

/// An offer names the local address, if that can be a host candidate.
pub open spec fn announces(sdp: Seq<char>, addr: SocketAddrView) -> bool {
    is_host_address(addr) ==> names_host(sdp, addr)
}

/// What initiating a connection does, given what binding a socket returned.
pub open spec fn initiate_outcome<S, W, E>(
    pre: ManagerView<S, W>,
    peer: Seq<u8>,
    at: Instant,
    bound: Result<(S, SocketAddr), E>,
    post: ManagerView<S, W>,
    result: Result<(), E>,
) -> bool {
    match bound {
        Err(e) => post == id_spent(pre) && result == Err::<(), E>(e),
        Ok((socket, addr)) => {
            &&& result is Ok
            &&& exists|sdp: Seq<char>|
                announces(sdp, addr@) && post == #[trigger] initiated(
                    pre,
                    peer,
                    at,
                    socket,
                    addr@,
                    sdp,
                )
        },
    }
}

// ---------------------------------------------------------------------------
// Signaling
// ---------------------------------------------------------------------------

/// An offer from the peer collides with an attempt of ours to connect to it.
pub open spec fn collides<S, W>(m: ManagerView<S, W>, peer: Seq<u8>) -> bool {
    m.peers.dom().contains(peer) && m.peers[peer].state == ConnectionState::Connecting
}

/// Of two peers whose offers collide, the one with the smaller key yields.
pub open spec fn yields(my_id: Seq<u8>, peer: Seq<u8>) -> bool {
    key_less(my_id, peer)
}

/// The manager after a collision was resolved in favour of the remote offer.
pub open spec fn yielded<S, W>(m: ManagerView<S, W>, peer: Seq<u8>) -> ManagerView<S, W> {
    if collides(m, peer) {
        dropped(m, peer)
    } else {
        m
    }
}

/// An offer was accepted: the connection takes the place of any other to the
/// peer, in the session that the offer named, and the answer is sent.
pub open spec fn answered<S, W>(
    m: ManagerView<S, W>,
    peer: Seq<u8>,
    session_id: u64,
    trace: Seq<Step>,
    socket: S,
    answer: Seq<char>,
) -> ManagerView<S, W> {
    ManagerView {
        peers: m.peers.insert(peer, fresh_peer(socket, session_id, trace, None)),
        signaling: m.signaling.push(
            SignalingEnvelopeView {
                peer,
                msg: SignalingMsgView::Answer { session_id, sdp: answer },
            },
        ),
        ..m
    }
}

/// What handling an offer that is not ignored does, given what binding a socket
/// returned.
pub open spec fn offer_outcome<S, W, E>(
    pre: ManagerView<S, W>,
    peer: Seq<u8>,
    session_id: u64,
    sdp: Seq<char>,
    at: Instant,
    bound: Result<(S, SocketAddr), E>,
    post: ManagerView<S, W>,
    result: Result<(), ConnectErrorView<E>>,
) -> bool {
    match bound {
        Err(e) => {
            &&& post == yielded(pre, peer)
            &&& result == Err::<(), _>(ConnectErrorView::Bind(e))
        },
        Ok((socket, addr)) => match result {
            Ok(_) => is_offer(sdp) && data_only(sdp) && exists|answer: Seq<char>|
                post == #[trigger] answered(
                    yielded(pre, peer),
                    peer,
                    session_id,
                    opening(at, addr@).push(
                        Step::OfferAccepted { offer: sdp, outcome: Ok(answer) },
                    ),
                    socket,
                    answer,
                ),
            Err(ConnectErrorView::Peer(PeerErrorView::InvalidOffer(_))) => {
                !is_offer(sdp) && post == yielded(pre, peer)
            },
            Err(ConnectErrorView::Peer(PeerErrorView::MediaOffered)) => {
                is_offer(sdp) && !data_only(sdp) && post == yielded(pre, peer)
            },
            Err(ConnectErrorView::Peer(PeerErrorView::OfferRefused(_))) => {
                is_offer(sdp) && data_only(sdp) && post == yielded(pre, peer)
            },
            Err(_) => false,
        },
    }
}

/// What handling an answer does. Whatever becomes of the answer, the offer that
/// awaited one is spent.
pub open spec fn answer_outcome<S, W>(
    pre: ManagerView<S, W>,
    peer: Seq<u8>,
    session_id: u64,
    sdp: Seq<char>,
    post: ManagerView<S, W>,
    result: Result<(), PeerErrorView>,
) -> bool {
    if !pre.peers.dom().contains(peer) {
        post == pre && result == Err::<(), _>(PeerErrorView::NoConnectionForAnswer)
    } else if pre.peers[peer].session_id != session_id {
        post == pre && result == Err::<(), _>(PeerErrorView::SessionMismatch)
    } else {
        let connection = pre.peers[peer];
        match connection.pending_offer {
            None => post == pre && result == Err::<(), _>(PeerErrorView::NoPendingOffer),
            Some(offer) => if !is_answer(sdp) {
                &&& post == with_peer(pre, peer, PeerView { pending_offer: None, ..connection })
                &&& result matches Err(PeerErrorView::InvalidAnswer(_))
            } else {
                exists|outcome: Result<(), Seq<char>>|
                    {
                        &&& post == with_peer(
                            pre,
                            peer,
                            PeerView {
                                pending_offer: None,
                                trace: connection.trace.push(
                                    Step::AnswerAccepted { offer, answer: sdp, outcome },
                                ),
                                ..connection
                            },
                        )
                        &&& result == #[trigger] answer_result(outcome)
                    }
            },
        }
    }
}

/// What is made of how a session took an answer.
pub open spec fn answer_result(outcome: Result<(), Seq<char>>) -> Result<(), PeerErrorView> {
    match outcome {
        Ok(_) => Ok(()),
        Err(e) => Err(PeerErrorView::AnswerRefused(e)),
    }
}

/// What handling a candidate does.
pub open spec fn candidate_outcome<S, W>(
    pre: ManagerView<S, W>,
    peer: Seq<u8>,
    session_id: u64,
    candidate: Seq<char>,
) -> (ManagerView<S, W>, Result<(), PeerErrorView>) {
    if !pre.peers.dom().contains(peer) {
        (pre, Err(PeerErrorView::NoConnectionForCandidate))
    } else if pre.peers[peer].session_id != session_id {
        (pre, Err(PeerErrorView::SessionMismatch))
    } else {
        match candidate_error(candidate) {
            Some(e) => (pre, Err(PeerErrorView::InvalidCandidate(e))),
            None => (
                with_peer(
                    pre,
                    peer,
                    PeerView {
                        trace: pre.peers[peer].trace.push(
                            Step::RemoteCandidate { text: candidate },
                        ),
                        ..pre.peers[peer]
                    },
                ),
                Ok(()),
            ),
        }
    }
}

/// What handling a close request does: only the session that it names is
/// dropped.
pub open spec fn closed<S, W>(
    m: ManagerView<S, W>,
    peer: Seq<u8>,
    session_id: u64,
) -> ManagerView<S, W> {
    if m.peers.dom().contains(peer) && m.peers[peer].session_id == session_id {
        dropped(m, peer)
    } else {
        m
    }
}

// ---------------------------------------------------------------------------
// Sending
// ---------------------------------------------------------------------------

/// Steps were taken on the session of a peer: what it wants sent goes to the
/// outbox, and its events wait for the next poll.
pub open spec fn after_steps<S, W>(peer: PeerView<S, W>, steps: Seq<Step>) -> PeerView<S, W> {
    PeerView {
        trace: peer.trace + steps,
        outbox: peer.outbox + sent_in(steps),
        deferred: peer.deferred + events_in(steps),
        ..peer
    }
}

/// What is made of how a data channel took a write. A channel without room drops
/// the datagram, which is no error on an unreliable channel.
pub open spec fn write_result(outcome: WriteOutcomeView) -> Result<(), PeerErrorView> {
    match outcome {
        WriteOutcomeView::Missing => Err(PeerErrorView::ChannelNotFound),
        WriteOutcomeView::Accepted(_) => Ok(()),
        WriteOutcomeView::Failed(e) => Err(PeerErrorView::WriteFailed(e)),
    }
}

/// The steps of a send over an open channel: the datagram is written, and if the
/// channel took it the session is flushed.
pub open spec fn is_send(
    steps: Seq<Step>,
    channel: ChannelId,
    data: Seq<u8>,
    outcome: WriteOutcomeView,
) -> bool {
    &&& steps.len() > 0
    &&& steps[0] == (Step::Written { channel, binary: true, data, outcome })
    &&& if write_result(outcome) is Ok {
        is_flush(steps.skip(1))
    } else {
        steps.len() == 1
    }
}

/// What sending over a connection does.
pub open spec fn connected_send_outcome<S, W>(
    pre: ManagerView<S, W>,
    peer: Seq<u8>,
    data: Seq<u8>,
    post: ManagerView<S, W>,
    result: Result<(), PeerErrorView>,
) -> bool {
    match pre.peers[peer].channel {
        None => post == pre && result == Err::<(), _>(PeerErrorView::NoDataChannel),
        Some(channel) => exists|steps: Seq<Step>, outcome: WriteOutcomeView|
            {
                &&& #[trigger] is_send(steps, channel, data, outcome)
                &&& post == with_peer(pre, peer, after_steps(pre.peers[peer], steps))
                &&& result == write_result(outcome)
            },
    }
}

/// A datagram was queued for a peer, and its sender waits to be woken.
pub open spec fn queued<S, W>(
    m: ManagerView<S, W>,
    peer: Seq<u8>,
    data: Seq<u8>,
    waker: W,
) -> ManagerView<S, W> {
    let connection = m.peers[peer];
    with_peer(
        m,
        peer,
        PeerView {
            pending_sends: connection.pending_sends.push(data),
            waker: Some(waker),
            ..connection
        },
    )
}

/// There is no connection to the peer that could carry data, now or later.
pub open spec fn unconnected<S, W>(m: ManagerView<S, W>, peer: Seq<u8>) -> bool {
    !m.peers.dom().contains(peer) || m.peers[peer].state == ConnectionState::Closed
}

/// What sending to a peer without a connection does, given what binding a socket
/// returned: a new connection is initiated in place of one that is closed.
pub open spec fn unconnected_send_outcome<S, W, E>(
    pre: ManagerView<S, W>,
    peer: Seq<u8>,
    data: Seq<u8>,
    waker: W,
    at: Instant,
    bound: Result<(S, SocketAddr), E>,
    post: ManagerView<S, W>,
    result: Result<(), ConnectErrorView<E>>,
) -> bool {
    match bound {
        Err(e) => {
            &&& post == id_spent(dropped(pre, peer))
            &&& result == Err::<(), _>(ConnectErrorView::Bind(e))
        },
        Ok((socket, addr)) => {
            &&& result == Err::<(), _>(ConnectErrorView::<E>::Peer(PeerErrorView::WouldBlock))
            &&& exists|sdp: Seq<char>|
                announces(sdp, addr@) && post == queued(
                    #[trigger] initiated(dropped(pre, peer), peer, at, socket, addr@, sdp),
                    peer,
                    data,
                    waker,
                )
        },
    }
}

// ---------------------------------------------------------------------------
// Events
// ---------------------------------------------------------------------------

/// The queued datagrams were written to a channel, each once and in order.
pub open spec fn are_writes(steps: Seq<Step>, channel: ChannelId, pending: Seq<Seq<u8>>) -> bool {
    &&& steps.len() == pending.len()
    &&& forall|i: int|
        0 <= i < steps.len() ==> {
            &&& #[trigger] steps[i] is Written
            &&& steps[i]->channel == channel
            &&& steps[i]->binary
            &&& steps[i]->Written_data == pending[i]
        }
}

/// The steps taken on the session of a peer when a channel opens: what was queued
/// is written to the channel, and the session is flushed.
pub open spec fn is_opening(steps: Seq<Step>, channel: ChannelId, pending: Seq<Seq<u8>>) -> bool {
    let n = pending.len() as int;
    &&& n <= steps.len()
    &&& are_writes(steps.take(n), channel, pending)
    &&& is_flush(steps.skip(n))
}

/// The senders to be woken, with the one that waits for a peer.
pub open spec fn woken_with<W>(woken: Seq<W>, waker: Option<W>) -> Seq<W> {
    match waker {
        Some(waker) => woken.push(waker),
        None => woken,
    }
}

/// A channel of a peer opened: the peer is connected over it.
pub open spec fn opened<S, W>(
    m: ManagerView<S, W>,
    peer: Seq<u8>,
    channel: ChannelId,
    steps: Seq<Step>,
) -> ManagerView<S, W> {
    let connection = PeerView {
        channel: Some(channel),
        state: ConnectionState::Connected,
        waker: None,
        pending_sends: Seq::empty(),
        ..after_steps(m.peers[peer], steps)
    };
    ManagerView {
        peers: m.peers.insert(peer, connection),
        woken: woken_with(m.woken, m.peers[peer].waker),
        ..m
    }
}

/// What an event of a peer's session does.
pub open spec fn event_outcome<S, W>(
    pre: ManagerView<S, W>,
    peer: Seq<u8>,
    event: RtcEventView,
    post: ManagerView<S, W>,
) -> bool {
    match event {
        RtcEventView::Ice(state) => post == if state == IceState::Disconnected
            && pre.peers.dom().contains(peer) {
            ManagerView {
                peers: pre.peers.insert(
                    peer,
                    PeerView {
                        state: ConnectionState::Closed,
                        waker: None,
                        ..pre.peers[peer]
                    },
                ),
                woken: woken_with(pre.woken, pre.peers[peer].waker),
                ..pre
            }
        } else {
            pre
        },
        RtcEventView::ChannelOpen(channel, _) => if pre.peers.dom().contains(peer) {
            exists|steps: Seq<Step>|
                {
                    &&& #[trigger] is_opening(steps, channel, pre.peers[peer].pending_sends)
                    &&& post == opened(pre, peer, channel, steps)
                }
        } else {
            post == pre
        },
        RtcEventView::ChannelData(data) => post == (ManagerView {
            datagrams: pre.datagrams.push((peer, data)),
            ..pre
        }),
        RtcEventView::ChannelClose(channel) => post == if pre.peers.dom().contains(peer)
            && pre.peers[peer].channel == Some(channel) {
            with_peer(
                pre,
                peer,
                PeerView { channel: None, state: ConnectionState::Closed, ..pre.peers[peer] },
            )
        } else {
            pre
        },
        RtcEventView::Other => post == pre,
    }
}

// ---------------------------------------------------------------------------
// Driving the sessions
// ---------------------------------------------------------------------------

/// A datagram that arrived on the socket of a peer.
pub struct Packet {
    /// The peer whose socket it arrived on.
    pub peer: EndpointId,
    /// Where it came from.
    pub source: SocketAddr,
    /// The local address of the socket.
    pub local: SocketAddr,
    /// Its contents.
    pub data: Vec<u8>,
}

/// What a [`Packet`] says.
#[verifier::ext_equal]
pub struct PacketView {
    pub peer: Seq<u8>,
    pub source: SocketAddrView,
    pub local: SocketAddrView,
    pub data: Seq<u8>,
}

impl Packet {
    /// What the packet says.
    pub open spec fn view(&self) -> PacketView {
        PacketView {
            peer: self.peer@,
            source: self.source@,
            local: self.local@,
            data: self.data@,
        }
    }
}

/// What each packet of a sequence says.
pub open spec fn packet_views(packets: Seq<Packet>) -> Seq<PacketView> {
    packets.map_values(|packet: Packet| packet@)
}

/// The packets that arrived on the socket of one peer.
pub open spec fn packets_for(packets: Seq<PacketView>, peer: Seq<u8>) -> Seq<PacketView>
    decreases packets.len(),
{
    if packets.len() == 0 {
        Seq::empty()
    } else if packets.last().peer == peer {
        packets_for(packets.drop_last(), peer).push(packets.last())
    } else {
        packets_for(packets.drop_last(), peer)
    }
}

/// The packets were handed to a session, each once and in order.
pub open spec fn are_receipts(steps: Seq<Step>, at: Instant, packets: Seq<PacketView>) -> bool {
    &&& steps.len() == packets.len()
    &&& forall|i: int|
        0 <= i < steps.len() ==> {
            &&& #[trigger] steps[i] is Received
            &&& steps[i]->Received_at == at
            &&& steps[i]->source == packets[i].source
            &&& steps[i]->local == packets[i].local
            &&& steps[i]->Received_data == packets[i].data
        }
}

/// The steps that drive a session: it gets what arrived, then the time, and is
/// then drained.
pub open spec fn is_drive(steps: Seq<Step>, at: Instant, packets: Seq<PacketView>) -> bool {
    let n = packets.len() as int;
    &&& n < steps.len()
    &&& are_receipts(steps.take(n), at, packets)
    &&& steps[n] is TimedOut
    &&& steps[n]->TimedOut_at == at
    &&& is_drain(steps.skip(n + 1))
}

/// A peer whose session was driven.
pub open spec fn driven<S, W>(peer: PeerView<S, W>, steps: Seq<Step>) -> PeerView<S, W> {
    PeerView {
        trace: peer.trace + steps,
        outbox: peer.outbox + sent_in(steps),
        deferred: Seq::empty(),
        ..peer
    }
}

/// The events to be handled after the session of a peer was driven: those that
/// were left over, then the new ones.
pub open spec fn events_after<S, W>(peer: PeerView<S, W>, steps: Seq<Step>) -> Seq<RtcEventView> {
    peer.deferred + events_in(steps)
}

/// Events with the peer that they belong to.
pub open spec fn tagged(peer: Seq<u8>, events: Seq<RtcEventView>) -> Seq<
    (Seq<u8>, RtcEventView),
> {
    events.map_values(|event: RtcEventView| (peer, event))
}

/// The manager after the sessions of these peers were driven, each by its steps.
pub open spec fn all_driven<S, W>(
    m: ManagerView<S, W>,
    order: Seq<Seq<u8>>,
    log: Seq<Seq<Step>>,
) -> ManagerView<S, W>
    decreases order.len(),
{
    if order.len() == 0 {
        m
    } else {
        with_peer(
            all_driven(m, order.drop_last(), log.drop_last()),
            order.last(),
            driven(m.peers[order.last()], log.last()),
        )
    }
}

/// The events to be handled after the sessions of these peers were driven.
pub open spec fn all_events<S, W>(
    m: ManagerView<S, W>,
    order: Seq<Seq<u8>>,
    log: Seq<Seq<Step>>,
) -> Seq<(Seq<u8>, RtcEventView)>
    decreases order.len(),
{
    if order.len() == 0 {
        Seq::empty()
    } else {
        all_events(m, order.drop_last(), log.drop_last()) + tagged(
            order.last(),
            events_after(m.peers[order.last()], log.last()),
        )
    }
}

/// Every peer occurs once.
pub open spec fn is_order<S, W>(m: ManagerView<S, W>, order: Seq<Seq<u8>>) -> bool {
    &&& order.no_duplicates()
    &&& forall|key: Seq<u8>| #[trigger] order.contains(key) <==> m.peers.dom().contains(key)
}

/// The session of every peer was driven once.
pub open spec fn is_round<S, W>(
    m: ManagerView<S, W>,
    order: Seq<Seq<u8>>,
    log: Seq<Seq<Step>>,
    at: Instant,
    packets: Seq<PacketView>,
) -> bool {
    &&& is_order(m, order)
    &&& log.len() == order.len()
    &&& forall|i: int|
        0 <= i < order.len() ==> is_drive(#[trigger] log[i], at, packets_for(packets, order[i]))
}

/// The events were handled one after the other.
pub open spec fn events_handled<S, W>(
    pre: ManagerView<S, W>,
    events: Seq<(Seq<u8>, RtcEventView)>,
    post: ManagerView<S, W>,
) -> bool
    decreases events.len(),
{
    if events.len() == 0 {
        post == pre
    } else {
        exists|between: ManagerView<S, W>|
            {
                &&& events_handled(pre, events.drop_last(), between)
                &&& #[trigger] event_outcome(between, events.last().0, events.last().1, post)
            }
    }
}

/// What each tagged event of a sequence says.
pub open spec fn tagged_views(events: Seq<(EndpointId, RtcEvent)>) -> Seq<
    (Seq<u8>, RtcEventView),
> {
    events.map_values(|event: (EndpointId, RtcEvent)| (event.0@, event.1@))
}

/// The senders that wait for these peers, in the order of the peers.
pub open spec fn waiting<S, W>(m: ManagerView<S, W>, order: Seq<Seq<u8>>) -> Seq<W>
    decreases order.len(),
{
    if order.len() == 0 {
        Seq::empty()
    } else {
        woken_with(waiting(m, order.drop_last()), m.peers[order.last()].waker)
    }
}

/// Every connection was torn down, and every sender that waited for one is woken.
pub open spec fn torn_down<S, W>(m: ManagerView<S, W>, order: Seq<Seq<u8>>) -> ManagerView<S, W> {
    ManagerView { peers: Map::empty(), woken: m.woken + waiting(m, order), ..m }
}

/// The network changed. After a major change, of the local address or link, every
/// connection is torn down, and the next send sets a new one up. A minor change
/// only hastens attempts that wait for a retry, of which there are none here: a
/// send to a closed connection retries at once.
pub open spec fn network_changed<S, W>(
    pre: ManagerView<S, W>,
    major: bool,
    post: ManagerView<S, W>,
) -> bool {
    if major {
        exists|order: Seq<Seq<u8>>| #[trigger]
            is_order(pre, order) && post == torn_down(pre, order)
    } else {
        post == pre
    }
}

/// What sending a datagram does. `bind` is called only if there is no connection
/// that could carry data, now or later.
pub open spec fn send_outcome<S, W, E, F: Fn() -> Result<(S, SocketAddr), E>>(
    pre: ManagerView<S, W>,
    peer: Seq<u8>,
    data: Seq<u8>,
    waker: W,
    at: Instant,
    bind: F,
    post: ManagerView<S, W>,
    result: Result<(), ConnectErrorView<E>>,
) -> bool {
    if unconnected(pre, peer) {
        exists|bound: Result<(S, SocketAddr), E>| #[trigger]
            bind.ensures((), bound) && unconnected_send_outcome(
                pre,
                peer,
                data,
                waker,
                at,
                bound,
                post,
                result,
            )
    } else if collides(pre, peer) {
        &&& post == queued(pre, peer, data, waker)
        &&& result == Err::<(), _>(ConnectErrorView::<E>::Peer(PeerErrorView::WouldBlock))
    } else {
        match result {
            Ok(_) => connected_send_outcome(pre, peer, data, post, Ok(())),
            Err(ConnectErrorView::Peer(e)) => connected_send_outcome(
                pre,
                peer,
                data,
                post,
                Err(e),
            ),
            Err(ConnectErrorView::Bind(_)) => false,
        }
    }
}

/// What handling an offer does. An offer that collides with one of ours is ignored
/// by the side that does not yield, and `bind` is not called.
pub open spec fn offer_handled<S, W, E, F: Fn() -> Result<(S, SocketAddr), E>>(
    pre: ManagerView<S, W>,
    peer: Seq<u8>,
    session_id: u64,
    sdp: Seq<char>,
    at: Instant,
    bind: F,
    post: ManagerView<S, W>,
    result: Result<(), ConnectErrorView<E>>,
) -> bool {
    if collides(pre, peer) && !yields(pre.my_id, peer) {
        post == pre && result is Ok
    } else {
        exists|bound: Result<(S, SocketAddr), E>| #[trigger]
            bind.ensures((), bound) && offer_outcome(
                pre,
                peer,
                session_id,
                sdp,
                at,
                bound,
                post,
                result,
            )
    }
}

/// What a poll does: the session of every peer is driven once, and then the events
/// that came of it are handled.
pub open spec fn poll_outcome<S, W>(
    pre: ManagerView<S, W>,
    at: Instant,
    packets: Seq<PacketView>,
    post: ManagerView<S, W>,
) -> bool {
    exists|order: Seq<Seq<u8>>, log: Seq<Seq<Step>>|
        {
            &&& #[trigger] is_round(pre, order, log, at, packets)
            &&& events_handled(all_driven(pre, order, log), all_events(pre, order, log), post)
        }
}

} // verus!
