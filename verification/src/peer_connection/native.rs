//! Peer connections on native platforms, over `str0m` sessions.
//!
//! The manager performs no I/O. Whoever drives it reads the sockets and hands in
//! what arrived, sends what [`PeerConnectionManager::take_transmits`] hands out,
//! and forwards the signaling messages, datagrams and wakers that were produced.

use std::time::Instant;

use bytes::Bytes;
use str0m::channel::ChannelId;
use str0m::net::Transmit;
use vstd::prelude::*;

use crate::addr::EndpointId;
use crate::net::SocketAddr;
use crate::payload::{buffer_as_slice, buffer_contents, buffer_from_slice, buffers_contents};
use crate::peer_connection::error::{
    connect_result, peer_result, ConnectError, PeerError, PeerErrorView,
};
use crate::peer_connection::flush::{
    drain, event_views, events_in, flush, is_flush, lemma_events_in_add, lemma_sent_in_add, sent_in,
};
use crate::peer_connection::model::{
    after_steps, all_driven, all_events, announces, answer_outcome, answer_result, answered,
    are_receipts, are_writes, candidate_outcome, closed, collides, datagram_views, driven, dropped,
    envelope_views, event_outcome, events_after, events_handled, fresh_manager, fresh_peer,
    has_offered, id_spent, initiate_outcome, initiated, is_drive, is_opening, is_order, is_round,
    is_send, manager_wf, network_changed, offer_handled, offering, opened, opening, packet_views,
    packets_for, peer_wf, poll_outcome, queued, send_outcome, tagged, tagged_views, torn_down,
    waiting, with_peer, write_result, yielded, ManagerView, Packet, PeerView,
};
use crate::peer_connection::rtc::{
    data_only, is_data_only, is_host_address, is_offer, same_channel, text_outcome, undescribed,
    unit_outcome, IceState, LocalCandidate, PendingOffer, RemoteAnswer, RemoteCandidate,
    RemoteOffer, RtcEvent, RtcEventView, Session, Step, WriteOutcome, WriteOutcomeView,
};
use crate::peer_connection::{ConnectionState, DATA_CHANNEL_LABEL};
use crate::signaling::{SignalingEnvelope, SignalingMsg};
use crate::table::PeerTable;

verus! {

/// State of a single peer connection.
struct PeerState<S, W> {
    /// The session driving this connection.
    session: Session,
    /// The socket bound for this peer's traffic.
    socket: S,
    /// Identifies the session in signaling.
    session_id: u64,
    /// The data channel, once opened.
    channel_id: Option<ChannelId>,
    /// Current connection state.
    state: ConnectionState,
    /// Whom to wake when the connection becomes ready.
    send_waker: Option<W>,
    /// Datagrams queued while the connection is being established.
    pending_sends: Vec<Bytes>,
    /// The offer that awaits an answer, on the offering side.
    pending_offer: Option<PendingOffer>,
    /// Datagrams to be sent from the socket.
    outbox: Vec<Transmit>,
    /// Events that came up during a flush, to be handled by the next poll.
    deferred: Vec<RtcEvent>,
}

impl<S, W> PeerState<S, W> {
    spec fn view(&self) -> PeerView<S, W> {
        PeerView {
            trace: self.session.trace(),
            socket: self.socket,
            session_id: self.session_id,
            channel: self.channel_id,
            state: self.state,
            waker: self.send_waker,
            pending_sends: buffers_contents(self.pending_sends@),
            pending_offer: match self.pending_offer {
                Some(pending) => Some(pending.sdp()),
                None => None,
            },
            outbox: self.outbox@,
            deferred: event_views(self.deferred@),
        }
    }
}

/// Manages peer connections.
///
/// `S` is the socket of a peer and `W` what wakes a sender.
pub struct PeerConnectionManager<S, W> {
    my_id: EndpointId,
    /// Active peer connections keyed by remote identity.
    peers: PeerTable<PeerState<S, W>>,
    /// Counter for session ids.
    next_session_id: u64,
    /// Signaling messages to be sent.
    signaling: Vec<SignalingEnvelope>,
    /// Datagrams that arrived.
    datagrams: Vec<(EndpointId, Bytes)>,
    /// Senders to be woken.
    woken: Vec<W>,
}

spec fn peer_views<S, W>(peers: Map<Seq<u8>, PeerState<S, W>>) -> Map<Seq<u8>, PeerView<S, W>> {
    peers.map_values(|peer: PeerState<S, W>| peer@)
}

impl<S, W> PeerConnectionManager<S, W> {
    /// What is known of the manager.
    pub closed spec fn view(&self) -> ManagerView<S, W> {
        ManagerView {
            my_id: self.my_id@,
            peers: peer_views(self.peers@),
            next_session_id: self.next_session_id,
            signaling: envelope_views(self.signaling@),
            datagrams: datagram_views(self.datagrams@),
            woken: self.woken@,
        }
    }

    /// The manager is consistent.
    pub closed spec fn wf(&self) -> bool {
        self.peers.wf() && manager_wf(self@)
    }

    pub(crate) proof fn lemma_wf_peer(self, peer: Seq<u8>)
        requires
            self.wf(),
            self@.peers.dom().contains(peer),
        ensures
            peer_wf(self@.peers[peer]),
    {
    }

    /// Creates a manager without connections.
    pub fn new(my_id: EndpointId) -> (manager: Self)
        ensures
            manager.wf(),
            manager@ == fresh_manager::<S, W>(my_id@),
    {
        let manager = PeerConnectionManager {
            my_id,
            peers: PeerTable::new(),
            next_session_id: 0,
            signaling: Vec::new(),
            datagrams: Vec::new(),
            woken: Vec::new(),
        };
        assert(manager@.peers =~= Map::<Seq<u8>, PeerView<S, W>>::empty());
        assert(manager@.signaling =~= Seq::empty());
        assert(manager@.datagrams =~= Seq::empty());
        manager
    }
}

proof fn lemma_views_insert<S, W>(
    peers: Map<Seq<u8>, PeerState<S, W>>,
    key: Seq<u8>,
    peer: PeerState<S, W>,
)
    ensures
        peer_views(peers.insert(key, peer)) == peer_views(peers).insert(key, peer@),
{
    assert(peer_views(peers.insert(key, peer)) =~= peer_views(peers).insert(key, peer@));
}

proof fn lemma_views_remove<S, W>(peers: Map<Seq<u8>, PeerState<S, W>>, key: Seq<u8>)
    ensures
        peer_views(peers.remove(key)) == peer_views(peers).remove(key),
{
    assert(peer_views(peers.remove(key)) =~= peer_views(peers).remove(key));
}

proof fn lemma_offers_kept(trace: Seq<Step>)
    ensures
        forall|steps: Seq<Step>, sdp: Seq<char>|
            has_offered(trace, sdp) ==> #[trigger] has_offered(trace + steps, sdp),
        forall|step: Step, sdp: Seq<char>|
            has_offered(trace, sdp) ==> #[trigger] has_offered(trace.push(step), sdp),
{
    assert forall|steps: Seq<Step>, sdp: Seq<char>| has_offered(trace, sdp) implies #[trigger]
        has_offered(trace + steps, sdp) by {
        let i = choose|i: int| 0 <= i < trace.len() && #[trigger] trace[i] == offering(sdp);
        assert((trace + steps)[i] == offering(sdp));
    }
    assert forall|step: Step, sdp: Seq<char>| has_offered(trace, sdp) implies #[trigger]
        has_offered(trace.push(step), sdp) by {
        let i = choose|i: int| 0 <= i < trace.len() && #[trigger] trace[i] == offering(sdp);
        assert(trace.push(step)[i] == offering(sdp));
    }
}

proof fn lemma_envelope_push(envelopes: Seq<SignalingEnvelope>, envelope: SignalingEnvelope)
    ensures
        envelope_views(envelopes.push(envelope)) == envelope_views(envelopes).push(envelope@),
{
    assert(envelope_views(envelopes.push(envelope)) =~= envelope_views(envelopes).push(envelope@));
}

/// Opens a session whose traffic goes through a socket with a local address.
fn open_session(now: Instant, addr: &SocketAddr) -> (session: Session)
    ensures
        session.trace() == opening(now, addr@),
        undescribed(session.trace()),
{
    let mut session = Session::build(false, now);
    if let Some(candidate) = LocalCandidate::udp_host(addr) {
        session.add_local_candidate(candidate);
    }
    session
}

impl<S, W> PeerState<S, W> {
    /// A connection that was just set up.
    fn fresh(
        session: Session,
        socket: S,
        session_id: u64,
        pending_offer: Option<PendingOffer>,
    ) -> (peer: Self)
        ensures
            peer@ == fresh_peer::<S, W>(
                socket,
                session_id,
                session.trace(),
                match pending_offer {
                    Some(pending) => Some(pending.sdp()),
                    None => None,
                },
            ),
    {
        let peer = PeerState {
            session,
            socket,
            session_id,
            channel_id: None,
            state: ConnectionState::Connecting,
            send_waker: None,
            pending_sends: Vec::new(),
            pending_offer,
            outbox: Vec::new(),
            deferred: Vec::new(),
        };
        assert(peer@.pending_sends =~= Seq::empty());
        assert(peer@.deferred =~= Seq::empty());
        peer
    }
}

impl<S, W> PeerConnectionManager<S, W> {
    /// Hands out a session id. They count up from zero, and start over once all are
    /// used up.
    pub fn next_session_id(&mut self) -> (id: u64)
        requires
            old(self).wf(),
        ensures
            id == old(self)@.next_session_id,
            final(self).wf(),
            final(self)@ == id_spent(old(self)@),
    {
        let id = self.next_session_id;
        self.next_session_id = self.next_session_id.wrapping_add(1);
        assert(self@ =~= id_spent(old(self)@));
        id
    }

    /// Initiates a connection to a peer, as the side that offers. A peer that there
    /// already is a connection to is left alone, and `bind` is not called.
    fn initiate<E, F: Fn() -> Result<(S, SocketAddr), E>>(
        &mut self,
        peer_id: EndpointId,
        now: Instant,
        bind: &F,
    ) -> (result: Result<(), E>)
        requires
            old(self).wf(),
            bind.requires(()),
        ensures
            final(self).wf(),
            old(self)@.peers.dom().contains(peer_id@) ==> {
                final(self)@ == old(self)@ && result is Ok
            },
            !old(self)@.peers.dom().contains(peer_id@) ==> exists|bound: Result<(S, SocketAddr), E>|
                #[trigger] bind.ensures((), bound) && initiate_outcome(
                    old(self)@,
                    peer_id@,
                    now,
                    bound,
                    final(self)@,
                    result,
                ),
    {
        if self.peers.contains(&peer_id) {
            return Ok(());
        }
        let session_id = self.next_session_id();
        let bound = (*bind)();
        let ghost returned = bound;
        assert(bind.ensures((), returned));
        let (socket, addr) = match bound {
            Ok(bound) => bound,
            Err(e) => {
                return Err(e);
            },
        };
        let mut session = open_session(now, &addr);
        proof {
            if is_host_address(addr@) {
                assert(session.trace().last() == Step::LocalCandidate { addr: addr@ });
            }
        }
        let (sdp, pending) = session.offer_channel(DATA_CHANNEL_LABEL, false, 0);
        let ghost text = sdp@;
        assert(announces(text, addr@));
        let ghost opened_len = opening(now, addr@).len();
        assert(session.trace()[opened_len as int] == offering(text));
        let envelope = SignalingEnvelope {
            peer: peer_id,
            msg: SignalingMsg::Offer { session_id, sdp },
        };
        let peer = PeerState::fresh(session, socket, session_id, Some(pending));
        proof {
            lemma_envelope_push(self.signaling@, envelope);
            lemma_views_insert(self.peers@, peer_id@, peer);
        }
        self.signaling.push(envelope);
        self.peers.insert(peer_id, peer);
        assert(self@ =~= initiated(old(self)@, peer_id@, now, socket, addr@, text));
        Ok(())
    }
}

/// Hands an offer to a session that is opened for it. Hands out the session, with
/// how it took the offer.
///
/// A text that is no offer, or that offers audio or video, reaches no session.
pub fn answer_offer(now: Instant, addr: &SocketAddr, sdp: &str) -> (answered: Result<
    (Session, Result<String, String>),
    PeerError,
>)
    ensures
        match answered {
            Ok((session, outcome)) => {
                &&& is_offer(sdp@)
                &&& data_only(sdp@)
                &&& session.trace() == opening(now, addr@).push(
                    Step::OfferAccepted { offer: sdp@, outcome: text_outcome(outcome) },
                )
            },
            Err(PeerError::InvalidOffer(_)) => !is_offer(sdp@),
            Err(e) => e@ == PeerErrorView::MediaOffered && is_offer(sdp@) && !data_only(sdp@),
        },
{
    let mut session = open_session(now, addr);
    let offer = match RemoteOffer::parse(sdp) {
        Ok(offer) => offer,
        Err(e) => {
            return Err(PeerError::InvalidOffer(e));
        },
    };
    if !is_data_only(sdp) {
        return Err(PeerError::MediaOffered);
    }
    let outcome = session.accept_offer(offer);
    Ok((session, outcome))
}

/// What is made of how a session took an answer.
pub fn conclude_answer(outcome: Result<(), String>) -> (result: Result<(), PeerError>)
    ensures
        peer_result(result) == answer_result(unit_outcome(outcome)),
{
    match outcome {
        Ok(_) => Ok(()),
        Err(e) => Err(PeerError::AnswerRefused(e)),
    }
}

impl<S, W> PeerConnectionManager<S, W> {
    /// Takes how a session took an offer. If it accepted the offer, the connection
    /// takes the place of any other to the peer, and the answer is sent.
    pub fn conclude_offer(
        &mut self,
        peer_id: EndpointId,
        session_id: u64,
        session: Session,
        socket: S,
        outcome: Result<String, String>,
    ) -> (result: Result<(), PeerError>)
        requires
            old(self).wf(),
        ensures
            final(self).wf(),
            match outcome {
                Ok(answer) => {
                    &&& result is Ok
                    &&& final(self)@ == answered(
                        old(self)@,
                        peer_id@,
                        session_id,
                        session.trace(),
                        socket,
                        answer@,
                    )
                },
                Err(e) => {
                    &&& peer_result(result) == Err::<(), _>(PeerErrorView::OfferRefused(e@))
                    &&& final(self)@ == old(self)@
                },
            },
    {
        match outcome {
            Ok(answer) => {
                let envelope = SignalingEnvelope {
                    peer: peer_id,
                    msg: SignalingMsg::Answer { session_id, sdp: answer },
                };
                let peer = PeerState::fresh(session, socket, session_id, None);
                proof {
                    lemma_envelope_push(self.signaling@, envelope);
                    lemma_views_insert(self.peers@, peer_id@, peer);
                }
                self.signaling.push(envelope);
                self.peers.insert(peer_id, peer);
                assert(self@ =~= answered(
                    old(self)@,
                    peer_id@,
                    session_id,
                    session.trace(),
                    socket,
                    answer@,
                ));
                Ok(())
            },
            Err(e) => Err(PeerError::OfferRefused(e)),
        }
    }

    /// Drops the connection to a peer.
    fn drop_peer(&mut self, peer_id: &EndpointId)
        requires
            old(self).wf(),
        ensures
            final(self).wf(),
            final(self)@ == dropped(old(self)@, peer_id@),
    {
        proof {
            lemma_views_remove(self.peers@, peer_id@);
        }
        let _ = self.peers.remove(peer_id);
        assert(self@ =~= dropped(old(self)@, peer_id@));
    }

    /// Handles an SDP offer from a peer.
    ///
    /// If the offer collides with an attempt of ours to connect, the peer with the
    /// smaller key yields: it drops its own attempt and accepts the offer, and the
    /// other ignores the offer.
    pub fn handle_offer<E, F: Fn() -> Result<(S, SocketAddr), E>>(
        &mut self,
        peer_id: EndpointId,
        session_id: u64,
        sdp: &str,
        now: Instant,
        bind: &F,
    ) -> (result: Result<(), ConnectError<E>>)
        requires
            old(self).wf(),
            bind.requires(()),
        ensures
            final(self).wf(),
            offer_handled(
                old(self)@,
                peer_id@,
                session_id,
                sdp@,
                now,
                *bind,
                final(self)@,
                connect_result(result),
            ),
    {
        let connecting = match self.peers.get(&peer_id) {
            Some(existing) => existing.state == ConnectionState::Connecting,
            None => false,
        };
        if connecting {
            if self.my_id.less_than(&peer_id) {
                self.drop_peer(&peer_id);
            } else {
                return Ok(());
            }
        }
        assert(self@ == yielded(old(self)@, peer_id@));
        let bound = (*bind)();
        let ghost returned = bound;
        assert(bind.ensures((), returned));
        let (socket, addr) = match bound {
            Ok(bound) => bound,
            Err(e) => {
                return Err(ConnectError::Bind(e));
            },
        };
        let (session, outcome) = match answer_offer(now, &addr, sdp) {
            Ok(answered) => answered,
            Err(e) => {
                return Err(ConnectError::Peer(e));
            },
        };
        match self.conclude_offer(peer_id, session_id, session, socket, outcome) {
            Ok(_) => Ok(()),
            Err(e) => Err(ConnectError::Peer(e)),
        }
    }

    /// Handles an SDP answer from a peer.
    pub fn handle_answer(&mut self, peer_id: EndpointId, session_id: u64, sdp: &str) -> (result:
        Result<(), PeerError>)
        requires
            old(self).wf(),
        ensures
            final(self).wf(),
            answer_outcome(
                old(self)@,
                peer_id@,
                session_id,
                sdp@,
                final(self)@,
                peer_result(result),
            ),
    {
        let ghost peers = self.peers@;
        let peer = match self.peers.get_mut(&peer_id) {
            Some(peer) => peer,
            None => {
                return Err(PeerError::NoConnectionForAnswer);
            },
        };
        proof {
            lemma_views_insert(peers, peer_id@, *final(peer));
            lemma_offers_kept(peers[peer_id@]@.trace);
            assert(peer_views(peers).insert(peer_id@, peers[peer_id@]@) =~= peer_views(peers));
        }
        if peer.session_id != session_id {
            return Err(PeerError::SessionMismatch);
        }
        let pending = match peer.pending_offer.take() {
            Some(pending) => pending,
            None => {
                return Err(PeerError::NoPendingOffer);
            },
        };
        let answer = match RemoteAnswer::parse(sdp) {
            Ok(answer) => answer,
            Err(e) => {
                return Err(PeerError::InvalidAnswer(e));
            },
        };
        proof {
            let trace = peers[peer_id@]@.trace;
            assert(old(self)@.peers.dom().contains(peer_id@));
            let i = choose|i: int|
                0 <= i < trace.len() && #[trigger] trace[i] == offering(pending.sdp());
            assert(trace[i] is Offered);
        }
        let outcome = peer.session.accept_answer(pending, answer);
        conclude_answer(outcome)
    }

    /// Handles an ICE candidate from a peer.
    pub fn handle_ice_candidate(
        &mut self,
        peer_id: EndpointId,
        session_id: u64,
        candidate: &str,
        _sdp_mid: Option<&str>,
    ) -> (result: Result<(), PeerError>)
        requires
            old(self).wf(),
        ensures
            final(self).wf(),
            (final(self)@, peer_result(result)) == candidate_outcome(
                old(self)@,
                peer_id@,
                session_id,
                candidate@,
            ),
    {
        let ghost peers = self.peers@;
        let peer = match self.peers.get_mut(&peer_id) {
            Some(peer) => peer,
            None => {
                return Err(PeerError::NoConnectionForCandidate);
            },
        };
        proof {
            lemma_views_insert(peers, peer_id@, *final(peer));
            lemma_offers_kept(peers[peer_id@]@.trace);
            assert(peer_views(peers).insert(peer_id@, peers[peer_id@]@) =~= peer_views(peers));
        }
        if peer.session_id != session_id {
            return Err(PeerError::SessionMismatch);
        }
        match RemoteCandidate::parse(candidate) {
            Ok(candidate) => {
                peer.session.add_remote_candidate(candidate);
                Ok(())
            },
            Err(e) => Err(PeerError::InvalidCandidate(e)),
        }
    }

    /// Handles a request to close a session.
    pub fn handle_close(&mut self, peer_id: EndpointId, session_id: u64)
        requires
            old(self).wf(),
        ensures
            final(self).wf(),
            final(self)@ == closed(old(self)@, peer_id@, session_id),
    {
        let named = match self.peers.get(&peer_id) {
            Some(peer) => peer.session_id == session_id,
            None => false,
        };
        if named {
            self.drop_peer(&peer_id);
        }
    }
}

/// What is made of how a data channel took a write.
pub fn conclude_write(outcome: WriteOutcome) -> (result: Result<(), PeerError>)
    ensures
        peer_result(result) == write_result(outcome@),
{
    match outcome {
        WriteOutcome::Missing => Err(PeerError::ChannelNotFound),
        WriteOutcome::Accepted(_) => Ok(()),
        WriteOutcome::Failed(e) => Err(PeerError::WriteFailed(e)),
    }
}

proof fn lemma_buffers_push(buffers: Seq<Bytes>, buffer: Bytes)
    ensures
        buffers_contents(buffers.push(buffer)) == buffers_contents(buffers).push(
            buffer_contents(buffer),
        ),
{
    assert(buffers_contents(buffers.push(buffer)) =~= buffers_contents(buffers).push(
        buffer_contents(buffer),
    ));
}

impl<S, W> PeerState<S, W> {
    /// Flushes the session.
    fn flush_peer_outputs(&mut self) -> (steps: Ghost<Seq<Step>>)
        ensures
            is_flush(steps@),
            final(self)@ == after_steps(old(self)@, steps@),
    {
        flush(&mut self.session, &mut self.outbox, &mut self.deferred)
    }

    /// Writes a datagram to an open channel and flushes the session.
    fn send_over(&mut self, channel: ChannelId, data: &[u8]) -> (result: Result<(), PeerError>)
        ensures
            exists|steps: Seq<Step>, outcome: WriteOutcomeView|
                {
                    &&& #[trigger] is_send(steps, channel, data@, outcome)
                    &&& final(self)@ == after_steps(old(self)@, steps)
                    &&& peer_result(result) == write_result(outcome)
                },
    {
        let outcome = self.session.write(channel, true, data);
        let ghost said = outcome@;
        let ghost write = Step::Written { channel, binary: true, data: data@, outcome: said };
        let ghost wrote = seq![write];
        proof {
            assert(wrote.drop_last() =~= Seq::<Step>::empty());
            assert(sent_in(Seq::<Step>::empty()) =~= Seq::empty());
            assert(events_in(Seq::<Step>::empty()) =~= Seq::empty());
            assert(self@ =~= after_steps(old(self)@, wrote));
        }
        match conclude_write(outcome) {
            Ok(_) => {
                let Ghost(flushed) = self.flush_peer_outputs();
                proof {
                    let steps = wrote + flushed;
                    lemma_sent_in_add(wrote, flushed);
                    lemma_events_in_add(wrote, flushed);
                    assert(steps.skip(1) =~= flushed);
                    assert(is_send(steps, channel, data@, said));
                    assert(self@ =~= after_steps(old(self)@, steps));
                }
                Ok(())
            },
            Err(e) => {
                assert(is_send(wrote, channel, data@, said));
                Err(e)
            },
        }
    }
}

impl<S, W> PeerConnectionManager<S, W> {
    /// Queues a datagram for a peer that is being connected to.
    fn queue(&mut self, peer_id: &EndpointId, data: &[u8], waker: W)
        requires
            old(self).wf(),
            collides(old(self)@, peer_id@),
        ensures
            final(self).wf(),
            final(self)@ == queued(old(self)@, peer_id@, data@, waker),
    {
        let ghost peers = self.peers@;
        if let Some(peer) = self.peers.get_mut(peer_id) {
            let buffer = buffer_from_slice(data);
            proof {
                lemma_views_insert(peers, peer_id@, *final(peer));
                lemma_offers_kept(peers[peer_id@]@.trace);
                lemma_buffers_push(peer.pending_sends@, buffer);
            }
            peer.pending_sends.push(buffer);
            peer.send_waker = Some(waker);
        }
        assert(self@ =~= queued(old(self)@, peer_id@, data@, waker));
    }

    /// Sends a datagram to a peer.
    ///
    /// Over a connection that is being set up, the datagram is queued until the
    /// channel opens. Without a connection one is initiated first. Either way the
    /// result is `WouldBlock`, and `waker` is kept.
    pub fn send<E, F: Fn() -> Result<(S, SocketAddr), E>>(
        &mut self,
        peer_id: EndpointId,
        data: &[u8],
        waker: W,
        now: Instant,
        bind: &F,
    ) -> (result: Result<(), ConnectError<E>>)
        requires
            old(self).wf(),
            bind.requires(()),
        ensures
            final(self).wf(),
            send_outcome(
                old(self)@,
                peer_id@,
                data@,
                waker,
                now,
                *bind,
                final(self)@,
                connect_result(result),
            ),
    {
        let state = match self.peers.get(&peer_id) {
            Some(peer) => Some(peer.state),
            None => None,
        };
        match state {
            Some(ConnectionState::Connected) => {
                let ghost peers = self.peers@;
                if let Some(peer) = self.peers.get_mut(&peer_id) {
                    proof {
                        lemma_views_insert(peers, peer_id@, *final(peer));
                        lemma_offers_kept(peers[peer_id@]@.trace);
                        assert(peer_views(peers).insert(peer_id@, peers[peer_id@]@) =~= peer_views(
                            peers,
                        ));
                    }
                    match peer.channel_id {
                        Some(channel) => match peer.send_over(channel, data) {
                            Ok(_) => Ok(()),
                            Err(e) => Err(ConnectError::Peer(e)),
                        },
                        None => Err(ConnectError::Peer(PeerError::NoDataChannel)),
                    }
                } else {
                    Ok(())
                }
            },
            Some(ConnectionState::Connecting) => {
                self.queue(&peer_id, data, waker);
                Err(ConnectError::Peer(PeerError::WouldBlock))
            },
            _ => {
                self.drop_peer(&peer_id);
                assert(self@ == dropped(old(self)@, peer_id@));
                match self.initiate(peer_id, now, bind) {
                    Ok(_) => {
                        self.queue(&peer_id, data, waker);
                        Err(ConnectError::Peer(PeerError::WouldBlock))
                    },
                    Err(e) => Err(ConnectError::Bind(e)),
                }
            },
        }
    }
}

proof fn lemma_datagram_push(datagrams: Seq<(EndpointId, Bytes)>, datagram: (EndpointId, Bytes))
    ensures
        datagram_views(datagrams.push(datagram)) == datagram_views(datagrams).push(
            (datagram.0@, buffer_contents(datagram.1)),
        ),
{
    assert(datagram_views(datagrams.push(datagram)) =~= datagram_views(datagrams).push(
        (datagram.0@, buffer_contents(datagram.1)),
    ));
}

impl<S, W> PeerState<S, W> {
    /// Takes a channel that opened into use: writes what was queued, whether or
    /// not each write succeeds, and flushes the session.
    fn open_channel(&mut self, channel: ChannelId) -> (steps: Ghost<Seq<Step>>)
        ensures
            is_opening(steps@, channel, old(self)@.pending_sends),
            final(self)@ == (PeerView {
                channel: Some(channel),
                state: ConnectionState::Connected,
                pending_sends: Seq::empty(),
                ..after_steps(old(self)@, steps@)
            }),
    {
        self.channel_id = Some(channel);
        self.state = ConnectionState::Connected;
        let mut pending: Vec<Bytes> = Vec::new();
        std::mem::swap(&mut pending, &mut self.pending_sends);
        let ghost queue = buffers_contents(pending@);
        let ghost mut writes: Seq<Step> = Seq::empty();
        let ghost before = self@;
        let mut i: usize = 0;
        proof {
            assert(before.pending_sends =~= Seq::empty());
            assert(before.trace + writes =~= before.trace);
        }
        while i < pending.len()
            invariant
                i <= pending.len(),
                queue == buffers_contents(pending@),
                writes.len() == i,
                are_writes(writes, channel, queue.take(i as int)),
                sent_in(writes) == Seq::<Transmit>::empty(),
                events_in(writes) == Seq::<RtcEventView>::empty(),
                self@ == (PeerView { trace: before.trace + writes, ..before }),
            decreases pending.len() - i,
        {
            let data = buffer_as_slice(&pending[i]);
            let outcome = self.session.write(channel, true, data);
            proof {
                let step = Step::Written { channel, binary: true, data: data@, outcome: outcome@ };
                assert(writes.push(step).drop_last() =~= writes);
                assert(queue[i as int] == data@);
                assert(queue.take(i as int + 1) =~= queue.take(i as int).push(data@));
                assert(before.trace + writes.push(step) =~= (before.trace + writes).push(step));
                writes = writes.push(step);
            }
            i = i + 1;
        }
        let Ghost(flushed) = self.flush_peer_outputs();
        let ghost steps = writes + flushed;
        proof {
            lemma_sent_in_add(writes, flushed);
            lemma_events_in_add(writes, flushed);
            assert(queue.take(i as int) =~= queue);
            assert(steps.take(i as int) =~= writes);
            assert(steps.skip(i as int) =~= flushed);
            assert(before.trace + writes + flushed =~= before.trace + steps);
            assert(sent_in(steps) =~= sent_in(flushed));
            assert(events_in(steps) =~= events_in(flushed));
        }
        Ghost(steps)
    }
}

impl<S, W> PeerConnectionManager<S, W> {
    /// Handles an event of a peer's session.
    pub fn handle_event(&mut self, peer_id: EndpointId, event: RtcEvent)
        requires
            old(self).wf(),
        ensures
            final(self).wf(),
            event_outcome(old(self)@, peer_id@, event@, final(self)@),
    {
        let ghost peers = self.peers@;
        proof {
            if old(self)@.peers.dom().contains(peer_id@) {
                assert(peer_wf(old(self)@.peers[peer_id@]));
            }
        }
        match event {
            RtcEvent::Ice(IceState::Disconnected) => {
                if let Some(peer) = self.peers.get_mut(&peer_id) {
                    proof {
                        lemma_views_insert(peers, peer_id@, *final(peer));
                        lemma_offers_kept(peers[peer_id@]@.trace);
                    }
                    peer.state = ConnectionState::Closed;
                    if let Some(waker) = peer.send_waker.take() {
                        self.woken.push(waker);
                    }
                }
            },
            RtcEvent::ChannelOpen(channel, _) => {
                if let Some(peer) = self.peers.get_mut(&peer_id) {
                    proof {
                        lemma_views_insert(peers, peer_id@, *final(peer));
                        lemma_offers_kept(peers[peer_id@]@.trace);
                    }
                    let Ghost(steps) = peer.open_channel(channel);
                    if let Some(waker) = peer.send_waker.take() {
                        self.woken.push(waker);
                    }
                    proof {
                        let queue = old(self)@.peers[peer_id@].pending_sends;
                        assert(is_opening(steps, channel, queue));
                        assert(self@ =~= opened(old(self)@, peer_id@, channel, steps));
                        assert(event@->ChannelOpen_0 == channel);
                    }
                }
            },
            RtcEvent::ChannelData(data) => {
                self.handle_channel_data(peer_id, data.as_slice());
            },
            RtcEvent::ChannelClose(channel) => {
                if let Some(peer) = self.peers.get_mut(&peer_id) {
                    proof {
                        lemma_views_insert(peers, peer_id@, *final(peer));
                        lemma_offers_kept(peers[peer_id@]@.trace);
                        assert(peer_views(peers).insert(peer_id@, peers[peer_id@]@) =~= peer_views(
                            peers,
                        ));
                    }
                    let ours = match &peer.channel_id {
                        Some(open) => same_channel(open, &channel),
                        None => false,
                    };
                    if ours {
                        peer.channel_id = None;
                        peer.state = ConnectionState::Closed;
                    }
                }
            },
            RtcEvent::Ice(_) | RtcEvent::Other => {},
        }
    }

    /// Delivers data that arrived on a peer's channel.
    fn handle_channel_data(&mut self, peer_id: EndpointId, data: &[u8])
        requires
            old(self).wf(),
        ensures
            final(self).wf(),
            final(self)@ == (ManagerView {
                datagrams: old(self)@.datagrams.push((peer_id@, data@)),
                ..old(self)@
            }),
    {
        let payload = buffer_from_slice(data);
        proof {
            lemma_datagram_push(self.datagrams@, (peer_id, payload));
        }
        self.datagrams.push((peer_id, payload));
        assert(self@ =~= (ManagerView {
            datagrams: old(self)@.datagrams.push((peer_id@, data@)),
            ..old(self)@
        }));
    }
}

proof fn lemma_all_driven_keeps<S, W>(
    m: ManagerView<S, W>,
    order: Seq<Seq<u8>>,
    log: Seq<Seq<Step>>,
    key: Seq<u8>,
)
    requires
        forall|i: int| 0 <= i < order.len() ==> m.peers.dom().contains(#[trigger] order[i]),
    ensures
        all_driven(m, order, log).peers.dom() == m.peers.dom(),
        !order.contains(key) ==> all_driven(m, order, log).peers[key] == m.peers[key],
    decreases order.len(),
{
    if order.len() > 0 {
        let rest = order.drop_last();
        assert forall|i: int| 0 <= i < rest.len() implies m.peers.dom().contains(
            #[trigger] rest[i],
        ) by {
            assert(rest[i] == order[i]);
        }
        lemma_all_driven_keeps(m, rest, log.drop_last(), key);
        assert(m.peers.dom().contains(order[order.len() - 1]));
        assert(all_driven(m, order, log).peers.dom() =~= m.peers.dom());
        if !order.contains(key) {
            if rest.contains(key) {
                let i = choose|i: int| 0 <= i < rest.len() && rest[i] == key;
                assert(order[i] == key);
            }
            assert(order[order.len() - 1] != key);
        }
    }
}

impl<S, W> PeerState<S, W> {
    /// Hands the session what arrived on the socket of the peer and the time, and
    /// drains it. Hands out the events to be handled.
    fn drive(&mut self, peer_id: &EndpointId, now: Instant, packets: &Vec<Packet>) -> (out: (
        Vec<RtcEvent>,
        Ghost<Seq<Step>>,
    ))
        ensures
            is_drive(out.1@, now, packets_for(packet_views(packets@), peer_id@)),
            final(self)@ == driven(old(self)@, out.1@),
            event_views(out.0@) == events_after(old(self)@, out.1@),
    {
        let ghost views = packet_views(packets@);
        let ghost before = self@;
        let ghost mut receipts: Seq<Step> = Seq::empty();
        let mut i: usize = 0;
        proof {
            assert(before.trace + receipts =~= before.trace);
            assert(views.take(0) =~= Seq::empty());
        }
        while i < packets.len()
            invariant
                i <= packets.len(),
                views == packet_views(packets@),
                are_receipts(receipts, now, packets_for(views.take(i as int), peer_id@)),
                sent_in(receipts) == Seq::<Transmit>::empty(),
                events_in(receipts) == Seq::<RtcEventView>::empty(),
                self@ == (PeerView { trace: before.trace + receipts, ..before }),
            decreases packets.len() - i,
        {
            let packet = &packets[i];
            proof {
                assert(views[i as int] == packet@);
                assert(views.take(i as int + 1).drop_last() =~= views.take(i as int));
                assert(views.take(i as int + 1).last() == packet@);
            }
            if packet.peer.same(peer_id) {
                let outcome = self.session.receive(
                    now,
                    &packet.source,
                    &packet.local,
                    packet.data.as_slice(),
                );
                proof {
                    let step = self.session.trace().last();
                    assert(receipts.push(step).drop_last() =~= receipts);
                    assert(before.trace + receipts.push(step) =~= (before.trace + receipts).push(
                        step,
                    ));
                    receipts = receipts.push(step);
                }
            }
            i = i + 1;
        }
        let outcome = self.session.timeout(now);
        let ghost told = self.session.trace().last();
        let mut events: Vec<RtcEvent> = Vec::new();
        std::mem::swap(&mut events, &mut self.deferred);
        let (_, Ghost(drained)) = drain(&mut self.session, &mut self.outbox, &mut events);
        let ghost steps = receipts.push(told) + drained;
        proof {
            let n = receipts.len() as int;
            assert(views.take(i as int) =~= views);
            assert(receipts.push(told).drop_last() =~= receipts);
            lemma_sent_in_add(receipts.push(told), drained);
            lemma_events_in_add(receipts.push(told), drained);
            assert(steps.take(n) =~= receipts);
            assert(steps.skip(n + 1) =~= drained);
            assert(sent_in(steps) =~= sent_in(drained));
            assert(events_in(steps) =~= events_in(drained));
            assert(self@.trace =~= before.trace + steps);
            assert(self@.deferred =~= Seq::empty());
            assert(self@ =~= driven(before, steps));
        }
        (events, Ghost(steps))
    }
}

impl<S, W> PeerConnectionManager<S, W> {
    /// Drives the session of every peer and handles what came of it.
    ///
    /// `packets` are the datagrams that arrived on the sockets since the last
    /// poll. Events are handled once every session was driven.
    pub fn poll(&mut self, now: Instant, packets: &Vec<Packet>)
        requires
            old(self).wf(),
        ensures
            final(self).wf(),
            poll_outcome(old(self)@, now, packet_views(packets@), final(self)@),
    {
        let ids = self.peers.ids();
        let ghost pre = self@;
        let ghost order = ids@.map_values(|id: EndpointId| id@);
        let ghost mut log: Seq<Seq<Step>> = Seq::empty();
        let mut events: Vec<(EndpointId, RtcEvent)> = Vec::new();
        let mut i: usize = 0;
        proof {
            lemma_ids_are_order(pre, ids@);
            assert(tagged_views(events@) =~= Seq::empty());
            assert(order.take(0) =~= Seq::empty());
        }
        while i < ids.len()
            invariant
                i <= ids.len(),
                self.peers.wf(),
                manager_wf(self@),
                manager_wf(pre),
                is_order(pre, order),
                order == ids@.map_values(|id: EndpointId| id@),
                log.len() == i,
                forall|j: int|
                    0 <= j < i ==> is_drive(
                        #[trigger] log[j],
                        now,
                        packets_for(packet_views(packets@), order[j]),
                    ),
                self@ == all_driven(pre, order.take(i as int), log),
                tagged_views(events@) == all_events(pre, order.take(i as int), log),
            decreases ids.len() - i,
        {
            let id = ids[i];
            let ghost peers = self.peers@;
            let ghost before = self@;
            let ghost done = order.take(i as int);
            proof {
                assert(order[i as int] == id@);
                assert(order.contains(id@));
                assert forall|j: int| 0 <= j < done.len() implies pre.peers.dom().contains(
                    #[trigger] done[j],
                ) by {
                    assert(order.contains(order[j]));
                }
                lemma_all_driven_keeps(pre, done, log, id@);
                if done.contains(id@) {
                    let j = choose|j: int| 0 <= j < done.len() && done[j] == id@;
                    assert(order[j] == order[i as int]);
                }
            }
            if let Some(peer) = self.peers.get_mut(&id) {
                proof {
                    lemma_views_insert(peers, id@, *final(peer));
                    lemma_offers_kept(peers[id@]@.trace);
                }
                let (happened, Ghost(steps)) = peer.drive(&id, now, packets);
                let ghost driven_events = event_views(happened@);
                let ghost kept = events@;
                append_tagged(&mut events, id, happened);
                proof {
                    assert(order.take(i as int + 1).drop_last() =~= done);
                    assert(log.push(steps).drop_last() =~= log);
                    log = log.push(steps);
                    assert(self@ =~= with_peer(before, id@, driven(pre.peers[id@], steps)));
                    assert(self@ == all_driven(pre, order.take(i as int + 1), log));
                }
            }
            i = i + 1;
        }
        proof {
            assert(order.take(i as int) =~= order);
            assert(is_round(pre, order, log, now, packet_views(packets@)));
        }
        let ghost start = self@;
        let ghost happened = tagged_views(events@);
        assert(happened.take(0) =~= Seq::empty());
        for entry in iter: events
            invariant
                iter.seq() == events@,
                happened == tagged_views(events@),
                self.wf(),
                events_handled(start, happened.take(iter.index()), self@),
        {
            let (id, event) = entry;
            let ghost between = self@;
            self.handle_event(id, event);
            proof {
                let next = happened.take(iter.index() + 1);
                assert(next.drop_last() =~= happened.take(iter.index()));
                assert(next.last() == (id@, event@));
                assert(events_handled(start, next.drop_last(), between));
                assert(event_outcome(between, next.last().0, next.last().1, self@));
            }
        }
        assert(happened.take(happened.len() as int) =~= happened);
    }
}

/// Appends events with the peer that they belong to.
fn append_tagged(log: &mut Vec<(EndpointId, RtcEvent)>, peer_id: EndpointId, events: Vec<RtcEvent>)
    ensures
        tagged_views(final(log)@) == tagged_views(old(log)@) + tagged(
            peer_id@,
            event_views(events@),
        ),
{
    let ghost start = log@;
    for event in iter: events
        invariant
            iter.seq() == events@,
            tagged_views(log@) == tagged_views(start) + tagged(
                peer_id@,
                event_views(events@.take(iter.index())),
            ),
    {
        proof {
            let done = events@.take(iter.index());
            assert(events@.take(iter.index() + 1) =~= done.push(event));
            assert(tagged(peer_id@, event_views(done.push(event))) =~= tagged(
                peer_id@,
                event_views(done),
            ).push((peer_id@, event@)));
            assert(tagged_views(log@.push((peer_id, event))) =~= tagged_views(log@).push(
                (peer_id@, event@),
            ));
        }
        log.push((peer_id, event));
    }
    assert(events@.take(events@.len() as int) =~= events@);
}

impl<S, W> PeerConnectionManager<S, W> {
    /// Takes note of a change of the network.
    pub fn on_network_change(&mut self, major: bool)
        requires
            old(self).wf(),
        ensures
            final(self).wf(),
            network_changed(old(self)@, major, final(self)@),
    {
        if !major {
            return;
        }
        let ids = self.peers.ids();
        let ghost pre = self@;
        let ghost order = ids@.map_values(|id: EndpointId| id@);
        let mut i: usize = 0;
        proof {
            lemma_ids_are_order(pre, ids@);
            assert(waiting(pre, order.take(0)) =~= Seq::empty());
        }
        while i < ids.len()
            invariant
                i <= ids.len(),
                self.peers.wf(),
                is_order(pre, order),
                order == ids@.map_values(|id: EndpointId| id@),
                forall|j: int|
                    i <= j < order.len() ==> {
                        &&& self@.peers.dom().contains(#[trigger] order[j])
                        &&& self@.peers[order[j]] == pre.peers[order[j]]
                    },
                self@.woken == pre.woken + waiting(pre, order.take(i as int)),
                self@ == (ManagerView { peers: self@.peers, woken: self@.woken, ..pre }),
            decreases ids.len() - i,
        {
            let id = ids[i];
            let ghost before = self@;
            assert(order[i as int] == id@);
            proof {
                lemma_views_remove(self.peers@, id@);
                assert(order.take(i as int + 1).drop_last() =~= order.take(i as int));
            }
            if let Some(peer) = self.peers.remove(&id) {
                assert(peer@ == pre.peers[id@]);
                if let Some(waker) = peer.send_waker {
                    self.woken.push(waker);
                }
            }
            assert(self@.peers == before.peers.remove(id@));
            i = i + 1;
        }
        self.peers = PeerTable::new();
        assert(order.take(i as int) =~= order);
        assert(self@ =~= torn_down(pre, order));
    }

    /// Every peer that there is a connection to, each once.
    pub fn peer_ids(&self) -> (ids: Vec<EndpointId>)
        requires
            self.wf(),
        ensures
            is_order(self@, ids@.map_values(|id: EndpointId| id@)),
    {
        let ids = self.peers.ids();
        proof {
            lemma_ids_are_order(self@, ids@);
        }
        ids
    }

    /// The state of the connection to a peer.
    pub fn connection_state(&self, peer_id: &EndpointId) -> (state: Option<ConnectionState>)
        requires
            self.wf(),
        ensures
            state == if self@.peers.dom().contains(peer_id@) {
                Some(self@.peers[peer_id@].state)
            } else {
                None
            },
    {
        match self.peers.get(peer_id) {
            Some(peer) => Some(peer.state),
            None => None,
        }
    }

    /// The socket of a peer.
    pub fn socket(&self, peer_id: &EndpointId) -> (socket: Option<&S>)
        requires
            self.wf(),
        ensures
            match socket {
                Some(socket) => {
                    &&& self@.peers.dom().contains(peer_id@)
                    &&& *socket == self@.peers[peer_id@].socket
                },
                None => !self@.peers.dom().contains(peer_id@),
            },
    {
        match self.peers.get(peer_id) {
            Some(peer) => Some(&peer.socket),
            None => None,
        }
    }

    /// Hands out the datagrams to be sent from the socket of a peer, first to last.
    pub fn take_transmits(&mut self, peer_id: &EndpointId) -> (transmits: Vec<Transmit>)
        requires
            old(self).wf(),
        ensures
            final(self).wf(),
            if old(self)@.peers.dom().contains(peer_id@) {
                &&& transmits@ == old(self)@.peers[peer_id@].outbox
                &&& final(self)@ == with_peer(
                    old(self)@,
                    peer_id@,
                    PeerView { outbox: Seq::empty(), ..old(self)@.peers[peer_id@] },
                )
            } else {
                transmits@ == Seq::<Transmit>::empty() && final(self)@ == old(self)@
            },
    {
        let ghost peers = self.peers@;
        let mut transmits: Vec<Transmit> = Vec::new();
        if let Some(peer) = self.peers.get_mut(peer_id) {
            proof {
                lemma_views_insert(peers, peer_id@, *final(peer));
                lemma_offers_kept(peers[peer_id@]@.trace);
            }
            std::mem::swap(&mut transmits, &mut peer.outbox);
            assert(peer@ =~= (PeerView { outbox: Seq::empty(), ..peers[peer_id@]@ }));
            assert(old(self)@.peers.dom().contains(peer_id@));
        }
        transmits
    }

    /// Hands out the signaling messages to be sent, first to last.
    pub fn take_signaling(&mut self) -> (envelopes: Vec<SignalingEnvelope>)
        requires
            old(self).wf(),
        ensures
            final(self).wf(),
            envelope_views(envelopes@) == old(self)@.signaling,
            final(self)@ == (ManagerView { signaling: Seq::empty(), ..old(self)@ }),
    {
        let mut envelopes: Vec<SignalingEnvelope> = Vec::new();
        std::mem::swap(&mut envelopes, &mut self.signaling);
        assert(self@ =~= (ManagerView { signaling: Seq::empty(), ..old(self)@ }));
        envelopes
    }

    /// Hands out the datagrams that arrived, first to last.
    pub fn take_datagrams(&mut self) -> (datagrams: Vec<(EndpointId, Bytes)>)
        requires
            old(self).wf(),
        ensures
            final(self).wf(),
            datagram_views(datagrams@) == old(self)@.datagrams,
            final(self)@ == (ManagerView { datagrams: Seq::empty(), ..old(self)@ }),
    {
        let mut datagrams: Vec<(EndpointId, Bytes)> = Vec::new();
        std::mem::swap(&mut datagrams, &mut self.datagrams);
        assert(self@ =~= (ManagerView { datagrams: Seq::empty(), ..old(self)@ }));
        datagrams
    }

    /// Hands out the senders to be woken.
    pub fn take_woken(&mut self) -> (woken: Vec<W>)
        requires
            old(self).wf(),
        ensures
            final(self).wf(),
            woken@ == old(self)@.woken,
            final(self)@ == (ManagerView { woken: Seq::empty(), ..old(self)@ }),
    {
        let mut woken: Vec<W> = Vec::new();
        std::mem::swap(&mut woken, &mut self.woken);
        assert(self@ =~= (ManagerView { woken: Seq::empty(), ..old(self)@ }));
        woken
    }
}

proof fn lemma_ids_are_order<S, W>(m: ManagerView<S, W>, ids: Seq<EndpointId>)
    requires
        forall|i: int| 0 <= i < ids.len() ==> m.peers.dom().contains((#[trigger] ids[i])@),
        forall|key: Seq<u8>| #[trigger]
            m.peers.dom().contains(key) ==> exists|i: int|
                0 <= i < ids.len() && (#[trigger] ids[i])@ == key,
        forall|i: int, j: int|
            0 <= i < ids.len() && 0 <= j < ids.len() && (#[trigger] ids[i])@ == (
            #[trigger] ids[j])@ ==> i == j,
    ensures
        is_order(m, ids.map_values(|id: EndpointId| id@)),
{
    let order = ids.map_values(|id: EndpointId| id@);
    assert forall|key: Seq<u8>| #[trigger]
        order.contains(key) <==> m.peers.dom().contains(key) by {
        if order.contains(key) {
            let j = choose|j: int| 0 <= j < order.len() && order[j] == key;
            assert(ids[j]@ == key);
        }
        if m.peers.dom().contains(key) {
            let j = choose|j: int| 0 <= j < ids.len() && (#[trigger] ids[j])@ == key;
            assert(order[j] == key);
        }
    }
    assert forall|a: int, b: int|
        0 <= a < order.len() && 0 <= b < order.len() && a != b implies order[a] != order[b] by {
        assert(ids[a]@ == order[a]);
        assert(ids[b]@ == order[b]);
    }
}

} // verus!
