//! Peer connections in the browser, over its own `RTCPeerConnection`.
//!
//! The browser's objects are driven by callbacks and promises, so they stay with
//! whoever runs this manager: `P` stands for a peer connection and `C` for a data
//! channel. The manager keeps the state of each connection, and decides what is to
//! be done with them.

use bytes::Bytes;
use vstd::prelude::*;

use crate::addr::EndpointId;
use crate::config::WebRtcConfig;
use crate::payload::{buffer_contents, buffer_from_slice, buffers_contents};
use crate::peer_connection::error::{
    connect_result, ConnectError, ConnectErrorView, PeerError, PeerErrorView,
};
use crate::peer_connection::model::{datagram_views, following_id, woken_with, yields};
use crate::peer_connection::ConnectionState;
use crate::signaling::codec::optional_text;
use crate::signaling::{SignalingEnvelope, SignalingMsg, SignalingMsgView};
use crate::table::PeerTable;
use crate::text::{characters, lower_characters, lowered, occurs, occurs_in};

verus! {

// ---------------------------------------------------------------------------
// Remote candidates
// ---------------------------------------------------------------------------

/// Holds remote candidates back until the remote description is set: the browser
/// refuses them before.
pub struct CandidateBuffer {
    description_set: bool,
    pending: Vec<(String, Option<String>)>,
}

/// What a candidate and its media line say.
pub open spec fn candidate_view(candidate: (String, Option<String>)) -> (
    Seq<char>,
    Option<Seq<char>>,
) {
    (candidate.0@, optional_text(candidate.1))
}

/// What each candidate of a sequence says.
pub open spec fn candidate_views(candidates: Seq<(String, Option<String>)>) -> Seq<
    (Seq<char>, Option<Seq<char>>),
> {
    candidates.map_values(|candidate: (String, Option<String>)| candidate_view(candidate))
}

/// The text in an optional slice.
pub open spec fn optional_str(text: Option<&str>) -> Option<Seq<char>> {
    match text {
        Some(text) => Some(text@),
        None => None,
    }
}

/// What is known of a [`CandidateBuffer`].
#[verifier::ext_equal]
pub struct CandidateBufferView {
    /// Whether the remote description is set.
    pub description_set: bool,
    /// The candidates that are held back.
    pub pending: Seq<(Seq<char>, Option<Seq<char>>)>,
}

impl CandidateBuffer {
    /// What is known of the buffer.
    pub closed spec fn view(&self) -> CandidateBufferView {
        CandidateBufferView {
            description_set: self.description_set,
            pending: candidate_views(self.pending@),
        }
    }

    /// A buffer before the remote description is set.
    pub fn new() -> (buffer: Self)
        ensures
            buffer@ == (CandidateBufferView { description_set: false, pending: Seq::empty() }),
    {
        let buffer = CandidateBuffer { description_set: false, pending: Vec::new() };
        assert(buffer@.pending =~= Seq::empty());
        buffer
    }

    /// Takes a remote candidate. It is handed back if it can be added now, and held
    /// back otherwise.
    pub fn arrive(&mut self, candidate: &str, sdp_mid: Option<&str>) -> (now: Option<
        (String, Option<String>),
    >)
        ensures
            (final(self)@, added_now(now)) == arrived(
                old(self)@,
                seq![(candidate@, optional_str(sdp_mid))],
            ),
    {
        let mid = match sdp_mid {
            Some(mid) => Some(mid.to_owned()),
            None => None,
        };
        let entry = (candidate.to_owned(), mid);
        assert(candidate_view(entry) == (candidate@, optional_str(sdp_mid)));
        if self.description_set {
            assert(added_now(Some(entry)) =~= seq![candidate_view(entry)]);
            Some(entry)
        } else {
            self.pending.push(entry);
            assert(self@.pending =~= old(self)@.pending + seq![candidate_view(entry)]);
            None
        }
    }

    /// The remote description is set: hands out what was held back, first to last.
    pub fn open(&mut self) -> (candidates: Vec<(String, Option<String>)>)
        ensures
            (final(self)@, candidate_views(candidates@)) == buffer_opened(old(self)@),
    {
        self.description_set = true;
        let mut candidates: Vec<(String, Option<String>)> = Vec::new();
        std::mem::swap(&mut candidates, &mut self.pending);
        assert(self@.pending =~= Seq::empty());
        candidates
    }
}

/// The candidate that can be added now, if any.
pub open spec fn added_now(now: Option<(String, Option<String>)>) -> Seq<
    (Seq<char>, Option<Seq<char>>),
> {
    match now {
        Some(candidate) => seq![candidate_view(candidate)],
        None => Seq::empty(),
    }
}

/// What is added to the connection when candidates arrive at a buffer.
pub open spec fn arrived(
    buffer: CandidateBufferView,
    arrivals: Seq<(Seq<char>, Option<Seq<char>>)>,
) -> (CandidateBufferView, Seq<(Seq<char>, Option<Seq<char>>)>) {
    if buffer.description_set {
        (buffer, arrivals)
    } else {
        (CandidateBufferView { pending: buffer.pending + arrivals, ..buffer }, Seq::empty())
    }
}

/// What is added to the connection when the remote description is set.
pub open spec fn buffer_opened(buffer: CandidateBufferView) -> (
    CandidateBufferView,
    Seq<(Seq<char>, Option<Seq<char>>)>,
) {
    (CandidateBufferView { description_set: true, pending: Seq::empty() }, buffer.pending)
}

/// Candidates that arrive one after the other fare as if they arrived at once.
pub proof fn law_arrivals_compose(
    buffer: CandidateBufferView,
    first: Seq<(Seq<char>, Option<Seq<char>>)>,
    second: Seq<(Seq<char>, Option<Seq<char>>)>,
)
    ensures
        ({
            let (between, added_first) = arrived(buffer, first);
            let (after, added_second) = arrived(between, second);
            arrived(buffer, first + second) == (after, added_first + added_second)
        }),
{
    assert(buffer.pending + (first + second) =~= buffer.pending + first + second);
    assert(Seq::<(Seq<char>, Option<Seq<char>>)>::empty() + Seq::empty() =~= Seq::empty());
}

/// Whenever the remote description is set, every candidate is added once, in the
/// order of arrival.
pub proof fn law_candidates_in_order(
    early: Seq<(Seq<char>, Option<Seq<char>>)>,
    late: Seq<(Seq<char>, Option<Seq<char>>)>,
)
    ensures
        ({
            let buffer = CandidateBufferView { description_set: false, pending: Seq::empty() };
            let (held, added_early) = arrived(buffer, early);
            let (opened, added_on_open) = buffer_opened(held);
            let (after, added_late) = arrived(opened, late);
            &&& added_early + added_on_open + added_late == early + late
            &&& after.pending.len() == 0
        }),
{
    assert(Seq::<(Seq<char>, Option<Seq<char>>)>::empty() + early =~= early);
}

/// What is sent to a peer of a local candidate; the browser ends gathering with a
/// candidate without text, of which nothing is sent.
pub fn local_candidate(
    peer: EndpointId,
    session_id: u64,
    candidate: String,
    sdp_mid: Option<String>,
) -> (envelope: Option<SignalingEnvelope>)
    ensures
        match envelope {
            Some(envelope) => {
                &&& candidate@.len() > 0
                &&& envelope.peer@ == peer@
                &&& envelope.msg@ == (SignalingMsgView::IceCandidate {
                    session_id,
                    candidate: candidate@,
                    sdp_mid: optional_text(sdp_mid),
                })
            },
            None => candidate@.len() == 0,
        },
{
    if characters(candidate.as_str()).len() == 0 {
        None
    } else {
        let msg = SignalingMsg::IceCandidate { session_id, candidate, sdp_mid };
        Some(SignalingEnvelope { peer, msg })
    }
}

// ---------------------------------------------------------------------------
// The manager
// ---------------------------------------------------------------------------

/// An event of the browser's callbacks.
pub enum PeerEvent {
    /// A local candidate was gathered.
    IceCandidate {
        /// The candidate.
        candidate: String,
        /// Its media line.
        sdp_mid: Option<String>,
    },
    /// All local candidates were gathered.
    IceGatheringComplete,
    /// The ICE connection state changed, to the one with this name.
    IceConnectionStateChange(String),
    /// The data channel opened.
    DataChannelOpen,
    /// Data arrived on the data channel.
    DataChannelMessage(Bytes),
    /// The data channel closed.
    DataChannelClose,
}

/// What the event queue of a peer answers.
pub enum EventPoll {
    /// An event happened.
    Event(PeerEvent),
    /// No event will happen any more.
    Ended,
    /// No event is there now.
    Idle,
}

/// What an [`EventPoll`] says.
#[verifier::ext_equal]
pub enum EventPollView {
    IceCandidate,
    IceGatheringComplete,
    IceConnectionStateChange(Seq<char>),
    DataChannelOpen,
    DataChannelMessage(Seq<u8>),
    DataChannelClose,
    Ended,
    Idle,
}

impl EventPoll {
    /// What the answer says.
    pub open spec fn view(&self) -> EventPollView {
        match self {
            EventPoll::Event(PeerEvent::IceCandidate { .. }) => EventPollView::IceCandidate,
            EventPoll::Event(PeerEvent::IceGatheringComplete) => {
                EventPollView::IceGatheringComplete
            },
            EventPoll::Event(PeerEvent::IceConnectionStateChange(state)) => {
                EventPollView::IceConnectionStateChange(state@)
            },
            EventPoll::Event(PeerEvent::DataChannelOpen) => EventPollView::DataChannelOpen,
            EventPoll::Event(PeerEvent::DataChannelMessage(data)) => {
                EventPollView::DataChannelMessage(buffer_contents(*data))
            },
            EventPoll::Event(PeerEvent::DataChannelClose) => EventPollView::DataChannelClose,
            EventPoll::Ended => EventPollView::Ended,
            EventPoll::Idle => EventPollView::Idle,
        }
    }
}

/// State of a single peer connection.
struct PeerState<P, C, W> {
    /// The browser's peer connection.
    pc: P,
    /// The data channel. The offering side creates it; the answering side gets it
    /// from the remote.
    data_channel: Option<C>,
    /// Identifies the session in signaling.
    session_id: u64,
    /// Current connection state.
    state: ConnectionState,
    /// Whom to wake when the connection becomes ready.
    send_waker: Option<W>,
    /// Datagrams queued while the connection is being established.
    pending_sends: Vec<Bytes>,
    /// Datagrams to be sent over the data channel.
    outbox: Vec<Bytes>,
}

/// What is known of a peer connection.
#[verifier::ext_equal]
pub struct BrowserPeerView<P, C, W> {
    /// The browser's peer connection.
    pub pc: P,
    /// The data channel.
    pub channel: Option<C>,
    /// Identifies the session in signaling.
    pub session_id: u64,
    /// Current connection state.
    pub state: ConnectionState,
    /// Whom to wake when the connection becomes ready.
    pub waker: Option<W>,
    /// Datagrams queued while the connection is being established.
    pub pending_sends: Seq<Seq<u8>>,
    /// Datagrams to be sent over the data channel.
    pub outbox: Seq<Seq<u8>>,
}

impl<P, C, W> PeerState<P, C, W> {
    spec fn view(&self) -> BrowserPeerView<P, C, W> {
        BrowserPeerView {
            pc: self.pc,
            channel: self.data_channel,
            session_id: self.session_id,
            state: self.state,
            waker: self.send_waker,
            pending_sends: buffers_contents(self.pending_sends@),
            outbox: buffers_contents(self.outbox@),
        }
    }
}

/// Manages peer connections in the browser.
pub struct PeerConnectionManager<P, C, W> {
    my_id: EndpointId,
    config: WebRtcConfig,
    peers: PeerTable<PeerState<P, C, W>>,
    next_session_id: u64,
    datagrams: Vec<(EndpointId, Bytes)>,
    woken: Vec<W>,
}

/// What is known of a manager.
#[verifier::ext_equal]
pub struct BrowserView<P, C, W> {
    /// The local identity.
    pub my_id: Seq<u8>,
    /// The connection to each peer.
    pub peers: Map<Seq<u8>, BrowserPeerView<P, C, W>>,
    /// The id of the next session that is initiated here.
    pub next_session_id: u64,
    /// Datagrams that arrived, each with the peer that it came from.
    pub datagrams: Seq<(Seq<u8>, Seq<u8>)>,
    /// Senders to be woken.
    pub woken: Seq<W>,
}

spec fn peer_views<P, C, W>(peers: Map<Seq<u8>, PeerState<P, C, W>>) -> Map<
    Seq<u8>,
    BrowserPeerView<P, C, W>,
> {
    peers.map_values(|peer: PeerState<P, C, W>| peer@)
}

proof fn lemma_views_insert<P, C, W>(
    peers: Map<Seq<u8>, PeerState<P, C, W>>,
    key: Seq<u8>,
    peer: PeerState<P, C, W>,
)
    ensures
        peer_views(peers.insert(key, peer)) == peer_views(peers).insert(key, peer@),
{
    assert(peer_views(peers.insert(key, peer)) =~= peer_views(peers).insert(key, peer@));
}

proof fn lemma_views_remove<P, C, W>(peers: Map<Seq<u8>, PeerState<P, C, W>>, key: Seq<u8>)
    ensures
        peer_views(peers.remove(key)) == peer_views(peers).remove(key),
{
    assert(peer_views(peers.remove(key)) =~= peer_views(peers).remove(key));
}

proof fn lemma_buffers_push(buffers: Seq<Bytes>, buffer: Bytes)
    ensures
        buffers_contents(buffers.push(buffer)) == buffers_contents(buffers).push(
            buffer_contents(buffer),
        ),
{
    assert(buffers_contents(buffers.push(buffer)) =~= buffers_contents(buffers).push(
        buffer_contents(buffer),
    ));
}

/// A connection that was just set up.
pub open spec fn fresh_peer<P, C, W>(
    pc: P,
    channel: Option<C>,
    session_id: u64,
) -> BrowserPeerView<P, C, W> {
    BrowserPeerView {
        pc,
        channel,
        session_id,
        state: ConnectionState::Connecting,
        waker: None,
        pending_sends: Seq::empty(),
        outbox: Seq::empty(),
    }
}

/// The connection to a peer was replaced.
pub open spec fn with_peer<P, C, W>(
    m: BrowserView<P, C, W>,
    peer: Seq<u8>,
    connection: BrowserPeerView<P, C, W>,
) -> BrowserView<P, C, W> {
    BrowserView { peers: m.peers.insert(peer, connection), ..m }
}

/// The connection to a peer was dropped.
pub open spec fn dropped<P, C, W>(m: BrowserView<P, C, W>, peer: Seq<u8>) -> BrowserView<P, C, W> {
    BrowserView { peers: m.peers.remove(peer), ..m }
}

/// A session id was used up.
pub open spec fn id_spent<P, C, W>(m: BrowserView<P, C, W>) -> BrowserView<P, C, W> {
    BrowserView { next_session_id: following_id(m.next_session_id), ..m }
}

/// An offer from the peer collides with an attempt of ours to connect to it.
pub open spec fn collides<P, C, W>(m: BrowserView<P, C, W>, peer: Seq<u8>) -> bool {
    m.peers.dom().contains(peer) && m.peers[peer].state == ConnectionState::Connecting
}

/// There is no connection to the peer that could carry data, now or later.
pub open spec fn unconnected<P, C, W>(m: BrowserView<P, C, W>, peer: Seq<u8>) -> bool {
    !m.peers.dom().contains(peer) || m.peers[peer].state == ConnectionState::Closed
}

/// The manager after a collision was resolved in favour of the remote offer.
pub open spec fn yielded<P, C, W>(m: BrowserView<P, C, W>, peer: Seq<u8>) -> BrowserView<P, C, W> {
    if collides(m, peer) {
        dropped(m, peer)
    } else {
        m
    }
}

/// What initiating a connection does, given what creating one returned.
pub open spec fn initiated<P, C, W, E>(
    m: BrowserView<P, C, W>,
    peer: Seq<u8>,
    created: Result<(P, C), E>,
) -> (BrowserView<P, C, W>, Result<(), E>) {
    match created {
        Err(e) => (id_spent(m), Err(e)),
        Ok((pc, channel)) => (
            with_peer(id_spent(m), peer, fresh_peer(pc, Some(channel), m.next_session_id)),
            Ok(()),
        ),
    }
}

/// What handling an offer that is not ignored does, given what creating a connection
/// returned. The answering side has no data channel yet.
pub open spec fn offer_outcome<P, C, W, E>(
    m: BrowserView<P, C, W>,
    peer: Seq<u8>,
    session_id: u64,
    created: Result<P, E>,
) -> (BrowserView<P, C, W>, Result<(), E>) {
    match created {
        Err(e) => (yielded(m, peer), Err(e)),
        Ok(pc) => (
            with_peer(yielded(m, peer), peer, fresh_peer(pc, None, session_id)),
            Ok(()),
        ),
    }
}

/// A datagram was queued for a peer, and its sender waits to be woken.
pub open spec fn queued<P, C, W>(
    m: BrowserView<P, C, W>,
    peer: Seq<u8>,
    data: Seq<u8>,
    waker: W,
) -> BrowserView<P, C, W> {
    let connection = m.peers[peer];
    with_peer(
        m,
        peer,
        BrowserPeerView {
            pending_sends: connection.pending_sends.push(data),
            waker: Some(waker),
            ..connection
        },
    )
}

/// What sending to a peer without a connection does, given what creating one
/// returned.
pub open spec fn unconnected_send_outcome<P, C, W, E>(
    m: BrowserView<P, C, W>,
    peer: Seq<u8>,
    data: Seq<u8>,
    waker: W,
    created: Result<(P, C), E>,
) -> (BrowserView<P, C, W>, Result<(), ConnectErrorView<E>>) {
    let (after, result) = initiated(dropped(m, peer), peer, created);
    match result {
        Err(e) => (after, Err(ConnectErrorView::Bind(e))),
        Ok(_) => (
            queued(after, peer, data, waker),
            Err(ConnectErrorView::Peer(PeerErrorView::WouldBlock)),
        ),
    }
}

/// What sending over a connection does: the datagram goes out over the channel.
pub open spec fn connected_send_outcome<P, C, W, E>(
    m: BrowserView<P, C, W>,
    peer: Seq<u8>,
    data: Seq<u8>,
) -> (BrowserView<P, C, W>, Result<(), ConnectErrorView<E>>) {
    let connection = m.peers[peer];
    match connection.channel {
        Some(_) => (
            with_peer(
                m,
                peer,
                BrowserPeerView { outbox: connection.outbox.push(data), ..connection },
            ),
            Ok(()),
        ),
        None => (m, Err(ConnectErrorView::Peer(PeerErrorView::NoDataChannel))),
    }
}

/// What sending a datagram does, and its result. `create` is asked for a connection
/// if there is none.
pub open spec fn send_outcome<P, C, W, E, F: Fn(EndpointId, u64) -> Result<(P, C), E>>(
    pre: BrowserView<P, C, W>,
    peer: EndpointId,
    data: Seq<u8>,
    waker: W,
    create: F,
    post: BrowserView<P, C, W>,
    result: Result<(), ConnectErrorView<E>>,
) -> bool {
    if unconnected(pre, peer@) {
        exists|created: Result<(P, C), E>|
            #[trigger] create.ensures((peer, pre.next_session_id), created) && (post, result)
                == unconnected_send_outcome(pre, peer@, data, waker, created)
    } else if collides(pre, peer@) {
        &&& post == queued(pre, peer@, data, waker)
        &&& result == Err::<(), _>(ConnectErrorView::<E>::Peer(PeerErrorView::WouldBlock))
    } else {
        (post, result) == connected_send_outcome::<P, C, W, E>(pre, peer@, data)
    }
}

/// What the result of looking a connection up says.
pub open spec fn pc_result<P>(pc: Result<&P, PeerError>) -> Result<P, PeerErrorView> {
    match pc {
        Ok(pc) => Ok(*pc),
        Err(e) => Err(e@),
    }
}

/// The connection to a peer whose session is the one named.
pub open spec fn named_peer<P, C, W>(
    m: BrowserView<P, C, W>,
    peer: Seq<u8>,
    session_id: u64,
    missing: PeerErrorView,
) -> Result<P, PeerErrorView> {
    if !m.peers.dom().contains(peer) {
        Err(missing)
    } else if m.peers[peer].session_id != session_id {
        Err(PeerErrorView::SessionMismatch)
    } else {
        Ok(m.peers[peer].pc)
    }
}

/// What handling a close request does.
pub open spec fn closed<P, C, W>(
    m: BrowserView<P, C, W>,
    peer: Seq<u8>,
    session_id: u64,
) -> BrowserView<P, C, W> {
    if m.peers.dom().contains(peer) && m.peers[peer].session_id == session_id {
        dropped(m, peer)
    } else {
        m
    }
}

/// A state that ends the connection, whether its name is capitalised or not.
pub open spec fn is_lost(state: Seq<char>) -> bool {
    occurs_in(lowered(state), "failed"@) || occurs_in(lowered(state), "disconnected"@)
}

/// The channel that is used once a data channel opened: the one created here, else
/// the one that the remote created.
pub open spec fn used_channel<C>(own: Option<C>, remote: Option<C>) -> Option<C> {
    match own {
        Some(_) => own,
        None => remote,
    }
}

/// A connection whose data channel opened. What was queued goes out over the
/// channel, in order.
pub open spec fn opened<P, C, W>(
    peer: BrowserPeerView<P, C, W>,
    remote: Option<C>,
) -> BrowserPeerView<P, C, W> {
    let channel = used_channel(peer.channel, remote);
    let ready = BrowserPeerView {
        state: ConnectionState::Connected,
        channel,
        waker: None,
        ..peer
    };
    match channel {
        Some(_) => BrowserPeerView {
            outbox: peer.outbox + peer.pending_sends,
            pending_sends: Seq::empty(),
            ..ready
        },
        None => ready,
    }
}

/// What the answer of a peer's event queue does, with the channel that the remote
/// created, if any.
pub open spec fn event_outcome<P, C, W>(
    m: BrowserView<P, C, W>,
    peer: Seq<u8>,
    event: EventPollView,
    remote: Option<C>,
) -> BrowserView<P, C, W> {
    if !m.peers.dom().contains(peer) {
        m
    } else {
        let connection = m.peers[peer];
        let lost = BrowserPeerView { state: ConnectionState::Closed, ..connection };
        match event {
            EventPollView::DataChannelOpen => BrowserView {
                peers: m.peers.insert(peer, opened(connection, remote)),
                woken: woken_with(m.woken, connection.waker),
                ..m
            },
            EventPollView::DataChannelClose => with_peer(m, peer, lost),
            EventPollView::DataChannelMessage(data) => BrowserView {
                datagrams: m.datagrams.push((peer, data)),
                ..m
            },
            EventPollView::IceConnectionStateChange(state) => if is_lost(state) {
                with_peer(m, peer, lost)
            } else {
                m
            },
            EventPollView::Ended => with_peer(m, peer, lost),
            EventPollView::IceCandidate => m,
            EventPollView::IceGatheringComplete => m,
            EventPollView::Idle => m,
        }
    }
}

/// The channel that the remote created is taken into use when the data channel of a
/// peer without one opens.
pub open spec fn takes_remote<P, C, W>(
    m: BrowserView<P, C, W>,
    peer: Seq<u8>,
    event: EventPollView,
) -> bool {
    &&& m.peers.dom().contains(peer)
    &&& event is DataChannelOpen
    &&& m.peers[peer].channel is None
}

impl<P, C, W> PeerState<P, C, W> {
    fn fresh(pc: P, data_channel: Option<C>, session_id: u64) -> (peer: Self)
        ensures
            peer@ == fresh_peer::<P, C, W>(pc, data_channel, session_id),
    {
        let peer = PeerState {
            pc,
            data_channel,
            session_id,
            state: ConnectionState::Connecting,
            send_waker: None,
            pending_sends: Vec::new(),
            outbox: Vec::new(),
        };
        assert(peer@.pending_sends =~= Seq::empty());
        assert(peer@.outbox =~= Seq::empty());
        peer
    }

    /// Takes an open channel into use. Hands out the sender to be woken.
    fn open_channel(&mut self, remote: &mut Option<C>) -> (waker: Option<W>)
        ensures
            final(self)@ == opened(old(self)@, *old(remote)),
            *final(remote) == if old(self)@.channel is None {
                None
            } else {
                *old(remote)
            },
            waker == old(self)@.waker,
    {
        self.state = ConnectionState::Connected;
        if self.data_channel.is_none() {
            self.data_channel = remote.take();
        }
        if self.data_channel.is_some() {
            let ghost before = self.outbox@;
            let ghost pending = self.pending_sends@;
            self.outbox.append(&mut self.pending_sends);
            proof {
                assert(self.outbox@ =~= before + pending);
                assert(buffers_contents(before + pending) =~= buffers_contents(before)
                    + buffers_contents(pending));
                assert(self@.pending_sends =~= Seq::empty());
            }
        }
        self.send_waker.take()
    }
}

impl<P, C, W> PeerConnectionManager<P, C, W> {
    /// What is known of the manager.
    pub closed spec fn view(&self) -> BrowserView<P, C, W> {
        BrowserView {
            my_id: self.my_id@,
            peers: peer_views(self.peers@),
            next_session_id: self.next_session_id,
            datagrams: datagram_views(self.datagrams@),
            woken: self.woken@,
        }
    }

    /// The configuration of new connections.
    pub closed spec fn configured(&self) -> WebRtcConfig {
        self.config
    }

    /// The manager is consistent.
    pub closed spec fn wf(&self) -> bool {
        self.peers.wf()
    }

    /// Creates a manager without connections.
    pub fn new(my_id: EndpointId, config: WebRtcConfig) -> (manager: Self)
        ensures
            manager.wf(),
            manager.configured() == config,
            manager@ == (BrowserView::<P, C, W> {
                my_id: my_id@,
                peers: Map::empty(),
                next_session_id: 0,
                datagrams: Seq::empty(),
                woken: Seq::empty(),
            }),
    {
        let manager = PeerConnectionManager {
            my_id,
            config,
            peers: PeerTable::new(),
            next_session_id: 0,
            datagrams: Vec::new(),
            woken: Vec::new(),
        };
        assert(manager@.peers =~= Map::<Seq<u8>, BrowserPeerView<P, C, W>>::empty());
        assert(manager@.datagrams =~= Seq::empty());
        manager
    }

    /// The configuration of new connections.
    pub fn config(&self) -> (config: &WebRtcConfig)
        ensures
            *config == self.configured(),
    {
        &self.config
    }
}

impl<P, C, W> PeerConnectionManager<P, C, W> {
    /// Drops the connection to a peer.
    fn drop_peer(&mut self, peer_id: &EndpointId)
        requires
            old(self).wf(),
        ensures
            final(self).wf(),
            final(self).configured() == old(self).configured(),
            final(self)@ == dropped(old(self)@, peer_id@),
    {
        proof {
            lemma_views_remove(self.peers@, peer_id@);
        }
        let _ = self.peers.remove(peer_id);
        assert(self@ =~= dropped(old(self)@, peer_id@));
    }

    /// Holds a connection to a peer.
    fn put_peer(&mut self, peer_id: EndpointId, peer: PeerState<P, C, W>)
        requires
            old(self).wf(),
        ensures
            final(self).wf(),
            final(self).configured() == old(self).configured(),
            final(self)@ == with_peer(old(self)@, peer_id@, peer@),
    {
        proof {
            lemma_views_insert(self.peers@, peer_id@, peer);
        }
        self.peers.insert(peer_id, peer);
        assert(self@ =~= with_peer(old(self)@, peer_id@, peer@));
    }

    /// Initiates a connection to a peer that there is none to. `create` is handed the
    /// peer and the id of the session, and creates the connection and its data channel.
    fn initiate<E, F: Fn(EndpointId, u64) -> Result<(P, C), E>>(
        &mut self,
        peer_id: EndpointId,
        create: &F,
    ) -> (result: Result<(), E>)
        requires
            old(self).wf(),
            create.requires((peer_id, old(self)@.next_session_id)),
            !old(self)@.peers.dom().contains(peer_id@),
        ensures
            final(self).wf(),
            final(self).configured() == old(self).configured(),
            exists|created: Result<(P, C), E>|
                #[trigger] create.ensures((peer_id, old(self)@.next_session_id), created) && (
                final(self)@,
                result,
                ) == initiated(old(self)@, peer_id@, created),
    {
        let session_id = self.next_session_id;
        self.next_session_id = self.next_session_id.wrapping_add(1);
        assert(self@ =~= id_spent(old(self)@));
        let created = (*create)(peer_id, session_id);
        let ghost returned = created;
        assert(create.ensures((peer_id, old(self)@.next_session_id), returned));
        match created {
            Ok((pc, channel)) => {
                self.put_peer(peer_id, PeerState::fresh(pc, Some(channel), session_id));
                Ok(())
            },
            Err(e) => Err(e),
        }
    }

    /// Handles an SDP offer from a peer.
    ///
    /// An offer that collides with one of ours is ignored by the side with the
    /// greater key. Otherwise `create` creates the connection that takes the offer.
    pub fn handle_offer<E, F: Fn() -> Result<P, E>>(
        &mut self,
        peer_id: EndpointId,
        session_id: u64,
        create: &F,
    ) -> (result: Result<(), E>)
        requires
            old(self).wf(),
            create.requires(()),
        ensures
            final(self).wf(),
            final(self).configured() == old(self).configured(),
            if collides(old(self)@, peer_id@) && !yields(old(self)@.my_id, peer_id@) {
                final(self)@ == old(self)@ && result is Ok
            } else {
                exists|created: Result<P, E>|
                    #[trigger] create.ensures((), created) && (final(self)@, result)
                        == offer_outcome(old(self)@, peer_id@, session_id, created)
            },
    {
        let connecting = match self.peers.get(&peer_id) {
            Some(existing) => existing.state == ConnectionState::Connecting,
            None => false,
        };
        if connecting {
            if self.my_id.less_than(&peer_id) {
                self.drop_peer(&peer_id);
            } else {
                return Ok(());
            }
        }
        assert(self@ == yielded(old(self)@, peer_id@));
        let created = (*create)();
        let ghost returned = created;
        assert(create.ensures((), returned));
        match created {
            Ok(pc) => {
                self.put_peer(peer_id, PeerState::fresh(pc, None, session_id));
                Ok(())
            },
            Err(e) => Err(e),
        }
    }

    fn named(&self, peer_id: &EndpointId, session_id: u64, missing: PeerError) -> (pc: Result<
        &P,
        PeerError,
    >)
        requires
            self.wf(),
        ensures
            pc_result(pc) == named_peer(self@, peer_id@, session_id, missing@),
    {
        match self.peers.get(peer_id) {
            Some(peer) => if peer.session_id != session_id {
                Err(PeerError::SessionMismatch)
            } else {
                Ok(&peer.pc)
            },
            None => Err(missing),
        }
    }

    /// Handles an SDP answer from a peer: hands out the connection that the answer
    /// is to be set on.
    pub fn handle_answer(&self, peer_id: &EndpointId, session_id: u64) -> (pc: Result<
        &P,
        PeerError,
    >)
        requires
            self.wf(),
        ensures
            pc_result(pc) == named_peer(
                self@,
                peer_id@,
                session_id,
                PeerErrorView::NoConnectionForAnswer,
            ),
    {
        self.named(peer_id, session_id, PeerError::NoConnectionForAnswer)
    }

    /// Handles an ICE candidate from a peer: hands out the connection whose
    /// [`CandidateBuffer`] takes it.
    pub fn handle_ice_candidate(&self, peer_id: &EndpointId, session_id: u64) -> (pc: Result<
        &P,
        PeerError,
    >)
        requires
            self.wf(),
        ensures
            pc_result(pc) == named_peer(
                self@,
                peer_id@,
                session_id,
                PeerErrorView::NoConnectionForCandidate,
            ),
    {
        self.named(peer_id, session_id, PeerError::NoConnectionForCandidate)
    }

    /// Handles a request to close a session. Tells whether it names the session with
    /// the peer, which is then gone; a request for another session changes nothing.
    pub fn handle_close(&mut self, peer_id: &EndpointId, session_id: u64) -> (named: bool)
        requires
            old(self).wf(),
        ensures
            named == (old(self)@.peers.dom().contains(peer_id@) && old(self)@.peers[peer_id@]
                .session_id == session_id),
            final(self).wf(),
            final(self).configured() == old(self).configured(),
            final(self)@ == closed(old(self)@, peer_id@, session_id),
    {
        let named = match self.peers.get(peer_id) {
            Some(peer) => peer.session_id == session_id,
            None => false,
        };
        if named {
            self.drop_peer(peer_id);
        }
        named
    }

    /// Queues a datagram for a peer that is being connected to.
    fn queue(&mut self, peer_id: &EndpointId, data: &[u8], waker: W)
        requires
            old(self).wf(),
            old(self)@.peers.dom().contains(peer_id@),
        ensures
            final(self).wf(),
            final(self).configured() == old(self).configured(),
            final(self)@ == queued(old(self)@, peer_id@, data@, waker),
    {
        let ghost peers = self.peers@;
        if let Some(peer) = self.peers.get_mut(peer_id) {
            let buffer = buffer_from_slice(data);
            proof {
                lemma_views_insert(peers, peer_id@, *final(peer));
                lemma_buffers_push(peer.pending_sends@, buffer);
            }
            peer.pending_sends.push(buffer);
            peer.send_waker = Some(waker);
        }
        assert(self@ =~= queued(old(self)@, peer_id@, data@, waker));
    }

    /// Sends a datagram to a peer. Over a connection, the datagram is added to those
    /// that [`Self::take_outbox`] hands out.
    pub fn send<E, F: Fn(EndpointId, u64) -> Result<(P, C), E>>(
        &mut self,
        peer_id: EndpointId,
        data: &[u8],
        waker: W,
        create: &F,
    ) -> (result: Result<(), ConnectError<E>>)
        requires
            old(self).wf(),
            create.requires((peer_id, old(self)@.next_session_id)),
        ensures
            final(self).wf(),
            final(self).configured() == old(self).configured(),
            send_outcome(
                old(self)@,
                peer_id,
                data@,
                waker,
                *create,
                final(self)@,
                connect_result(result),
            ),
    {
        let state = match self.peers.get(&peer_id) {
            Some(peer) => Some(peer.state),
            None => None,
        };
        match state {
            Some(ConnectionState::Connected) => {
                let ghost peers = self.peers@;
                if let Some(peer) = self.peers.get_mut(&peer_id) {
                    proof {
                        lemma_views_insert(peers, peer_id@, *final(peer));
                        assert(peer_views(peers).insert(peer_id@, peers[peer_id@]@) =~= peer_views(
                            peers,
                        ));
                    }
                    if peer.data_channel.is_some() {
                        let buffer = buffer_from_slice(data);
                        proof {
                            lemma_buffers_push(peer.outbox@, buffer);
                        }
                        peer.outbox.push(buffer);
                        Ok(())
                    } else {
                        Err(ConnectError::Peer(PeerError::NoDataChannel))
                    }
                } else {
                    Ok(())
                }
            },
            Some(ConnectionState::Connecting) => {
                self.queue(&peer_id, data, waker);
                Err(ConnectError::Peer(PeerError::WouldBlock))
            },
            _ => {
                self.drop_peer(&peer_id);
                match self.initiate(peer_id, create) {
                    Ok(_) => {
                        self.queue(&peer_id, data, waker);
                        Err(ConnectError::Peer(PeerError::WouldBlock))
                    },
                    Err(e) => Err(ConnectError::Bind(e)),
                }
            },
        }
    }

    /// Takes what the event queue of a peer answered. `remote` is where the callbacks
    /// leave a channel that the remote created. The result tells whether the queue
    /// is to be asked again.
    pub fn poll_step(&mut self, peer_id: &EndpointId, event: EventPoll, remote: &mut Option<C>) -> (
    again: bool)
        requires
            old(self).wf(),
        ensures
            final(self).wf(),
            final(self).configured() == old(self).configured(),
            final(self)@ == event_outcome(old(self)@, peer_id@, event@, *old(remote)),
            *final(remote) == if takes_remote(old(self)@, peer_id@, event@) {
                None
            } else {
                *old(remote)
            },
            again == !(event is Ended || event is Idle),
    {
        let again = match &event {
            EventPoll::Event(_) => true,
            _ => false,
        };
        let ghost peers = self.peers@;
        if !self.peers.contains(peer_id) {
            return again;
        }
        match event {
            EventPoll::Event(PeerEvent::DataChannelOpen) => {
                if let Some(peer) = self.peers.get_mut(peer_id) {
                    proof {
                        lemma_views_insert(peers, peer_id@, *final(peer));
                    }
                    if let Some(waker) = peer.open_channel(remote) {
                        self.woken.push(waker);
                    }
                }
            },
            EventPoll::Event(PeerEvent::DataChannelClose) => {
                self.lose(peer_id);
            },
            EventPoll::Event(PeerEvent::DataChannelMessage(data)) => {
                self.datagrams.push((*peer_id, data));
                assert(self@.datagrams =~= old(self)@.datagrams.push(
                    (peer_id@, buffer_contents(data)),
                ));
            },
            EventPoll::Event(PeerEvent::IceConnectionStateChange(state)) => {
                let name = lower_characters(state.as_str());
                assert(name@.skip(0) =~= name@);
                if occurs(&name, &characters("failed"), 0) || occurs(
                    &name,
                    &characters("disconnected"),
                    0,
                ) {
                    self.lose(peer_id);
                }
            },
            EventPoll::Event(PeerEvent::IceCandidate { .. }) => {},
            EventPoll::Event(PeerEvent::IceGatheringComplete) => {},
            EventPoll::Ended => {
                self.lose(peer_id);
            },
            EventPoll::Idle => {},
        }
        again
    }

    /// Marks the connection to a peer as closed.
    fn lose(&mut self, peer_id: &EndpointId)
        requires
            old(self).wf(),
            old(self)@.peers.dom().contains(peer_id@),
        ensures
            final(self).wf(),
            final(self).configured() == old(self).configured(),
            final(self)@ == with_peer(
                old(self)@,
                peer_id@,
                BrowserPeerView {
                    state: ConnectionState::Closed,
                    ..old(self)@.peers[peer_id@]
                },
            ),
    {
        let ghost peers = self.peers@;
        if let Some(peer) = self.peers.get_mut(peer_id) {
            proof {
                lemma_views_insert(peers, peer_id@, *final(peer));
            }
            peer.state = ConnectionState::Closed;
        }
        assert(self@.peers =~= peer_views(peers).insert(
            peer_id@,
            BrowserPeerView { state: ConnectionState::Closed, ..peers[peer_id@]@ },
        ));
    }

    /// Every peer that there is a connection to, each once.
    pub fn peer_ids(&self) -> (ids: Vec<EndpointId>)
        requires
            self.wf(),
        ensures
            forall|i: int| 0 <= i < ids.len() ==> self@.peers.dom().contains((#[trigger] ids[i])@),
            forall|key: Seq<u8>| #[trigger]
                self@.peers.dom().contains(key) ==> exists|i: int|
                    0 <= i < ids.len() && (#[trigger] ids[i])@ == key,
            forall|i: int, j: int|
                0 <= i < ids.len() && 0 <= j < ids.len() && (#[trigger] ids[i])@ == (
                #[trigger] ids[j])@ ==> i == j,
    {
        self.peers.ids()
    }

    /// The connection to a peer, and its data channel.
    pub fn peer(&self, peer_id: &EndpointId) -> (peer: Option<(&P, Option<&C>)>)
        requires
            self.wf(),
        ensures
            match peer {
                Some((pc, channel)) => {
                    &&& self@.peers.dom().contains(peer_id@)
                    &&& *pc == self@.peers[peer_id@].pc
                    &&& match channel {
                        Some(channel) => self@.peers[peer_id@].channel == Some(*channel),
                        None => self@.peers[peer_id@].channel is None,
                    }
                },
                None => !self@.peers.dom().contains(peer_id@),
            },
    {
        match self.peers.get(peer_id) {
            Some(peer) => Some((&peer.pc, peer.data_channel.as_ref())),
            None => None,
        }
    }

    /// Hands out the datagrams to be sent over the channel of a peer, first to last.
    pub fn take_outbox(&mut self, peer_id: &EndpointId) -> (outbox: Vec<Bytes>)
        requires
            old(self).wf(),
        ensures
            final(self).wf(),
            final(self).configured() == old(self).configured(),
            if old(self)@.peers.dom().contains(peer_id@) {
                &&& buffers_contents(outbox@) == old(self)@.peers[peer_id@].outbox
                &&& final(self)@ == with_peer(
                    old(self)@,
                    peer_id@,
                    BrowserPeerView { outbox: Seq::empty(), ..old(self)@.peers[peer_id@] },
                )
            } else {
                outbox@ == Seq::<Bytes>::empty() && final(self)@ == old(self)@
            },
    {
        let ghost peers = self.peers@;
        let mut outbox: Vec<Bytes> = Vec::new();
        if let Some(peer) = self.peers.get_mut(peer_id) {
            proof {
                lemma_views_insert(peers, peer_id@, *final(peer));
            }
            std::mem::swap(&mut outbox, &mut peer.outbox);
            assert(peer@ =~= (BrowserPeerView { outbox: Seq::empty(), ..peers[peer_id@]@ }));
        }
        outbox
    }

    /// Hands out the datagrams that arrived, first to last.
    pub fn take_datagrams(&mut self) -> (datagrams: Vec<(EndpointId, Bytes)>)
        requires
            old(self).wf(),
        ensures
            final(self).wf(),
            final(self).configured() == old(self).configured(),
            datagram_views(datagrams@) == old(self)@.datagrams,
            final(self)@ == (BrowserView { datagrams: Seq::empty(), ..old(self)@ }),
    {
        let mut datagrams: Vec<(EndpointId, Bytes)> = Vec::new();
        std::mem::swap(&mut datagrams, &mut self.datagrams);
        assert(self@ =~= (BrowserView { datagrams: Seq::empty(), ..old(self)@ }));
        datagrams
    }

    /// Hands out the senders to be woken.
    pub fn take_woken(&mut self) -> (woken: Vec<W>)
        requires
            old(self).wf(),
        ensures
            final(self).wf(),
            final(self).configured() == old(self).configured(),
            woken@ == old(self)@.woken,
            final(self)@ == (BrowserView { woken: Seq::empty(), ..old(self)@ }),
    {
        let mut woken: Vec<W> = Vec::new();
        std::mem::swap(&mut woken, &mut self.woken);
        assert(self@ =~= (BrowserView { woken: Seq::empty(), ..old(self)@ }));
        woken
    }
}

/// The connections to peers other than one are as they were.
pub open spec fn others_kept<P, C, W>(
    pre: BrowserView<P, C, W>,
    post: BrowserView<P, C, W>,
    peer: Seq<u8>,
) -> bool {
    &&& post.my_id == pre.my_id
    &&& forall|other: Seq<u8>|
        #![trigger post.peers.dom().contains(other)]
        #![trigger pre.peers.dom().contains(other)]
        other != peer ==> {
            &&& post.peers.dom().contains(other) == pre.peers.dom().contains(other)
            &&& post.peers[other] == pre.peers[other]
        }
}

/// Whatever is done with one peer leaves the connections to the others alone.
pub proof fn law_browser_keeps_others<P, C, W, E>(
    m: BrowserView<P, C, W>,
    peer: Seq<u8>,
    session_id: u64,
    data: Seq<u8>,
    waker: W,
    created: Result<(P, C), E>,
    accepted: Result<P, E>,
    event: EventPollView,
    remote: Option<C>,
)
    ensures
        others_kept(m, offer_outcome(m, peer, session_id, accepted).0, peer),
        others_kept(m, unconnected_send_outcome(m, peer, data, waker, created).0, peer),
        others_kept(m, connected_send_outcome::<P, C, W, E>(m, peer, data).0, peer),
        others_kept(m, queued(m, peer, data, waker), peer),
        others_kept(m, closed(m, peer, session_id), peer),
        others_kept(m, event_outcome(m, peer, event, remote), peer),
{
}

/// When a channel opens, what was queued goes out over it in order, behind what was
/// on its way already, and nothing stays queued.
pub proof fn law_browser_open_sends_queue<P, C, W>(
    m: BrowserView<P, C, W>,
    peer: Seq<u8>,
    remote: Option<C>,
)
    requires
        m.peers.dom().contains(peer),
        m.peers[peer].channel is Some || remote is Some,
    ensures
        ({
            let after = event_outcome(m, peer, EventPollView::DataChannelOpen, remote);
            &&& after.peers[peer].outbox == m.peers[peer].outbox + m.peers[peer].pending_sends
            &&& after.peers[peer].pending_sends.len() == 0
            &&& after.peers[peer].state == ConnectionState::Connected
        }),
{
}

} // verus!
